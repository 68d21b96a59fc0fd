//! A bounding volume hierarchy over the items of a scene, stored as a flat list of nodes
//! in preorder. The boxes themselves are opaque here (type `B`): the caller says how to
//! bound a set of items and which axis of a box is the longest.
use vstd::prelude::*;

verus! {

broadcast use {vstd::seq_lib::group_to_multiset_ensures, vstd::multiset::group_multiset_axioms};

/// A node of the hierarchy: an inner node with the indices of its two children and the
/// box around everything below it, or a leaf holding the index of one item.
pub enum BvhNode<B> {
    Tree(usize, usize, B),
    Leaf(usize),
}

/// Every inner node among `nodes[lo..hi]` points to children that come after it and
/// stand before `hi`, the left child not after the right one.
pub open spec fn children_within<B>(nodes: Seq<BvhNode<B>>, lo: int, hi: int) -> bool {
    forall|j: int|
        lo <= j < hi ==> match #[trigger] nodes[j] {
            BvhNode::Tree(l, r, _) => j < l && l <= r && r < hi,
            BvhNode::Leaf(_) => true,
        }
}

/// The items in the leaves below node `i`, left subtree first; a node whose two children
/// are the same node counts that child once.
pub open spec fn leaves_below<B>(nodes: Seq<BvhNode<B>>, i: int) -> Seq<usize>
    decreases nodes.len() - i,
{
    if 0 <= i < nodes.len() {
        match nodes[i] {
            BvhNode::Leaf(x) => seq![x],
            BvhNode::Tree(l, r, _) => {
                if i < l && l <= r && r < nodes.len() {
                    if l == r {
                        leaves_below(nodes, l as int)
                    } else {
                        leaves_below(nodes, l as int) + leaves_below(nodes, r as int)
                    }
                } else {
                    Seq::empty()
                }
            },
        }
    } else {
        Seq::empty()
    }
}

/// The key of item `x` along axis `a`.
pub open spec fn key(keys: Seq<[u64; 3]>, x: usize, a: usize) -> u64 {
    keys[x as int]@[a as int]
}

/// The items are in order of their keys along axis `a`.
pub open spec fn sorted_on(keys: Seq<[u64; 3]>, items: Seq<usize>, a: usize) -> bool {
    forall|i: int, j: int|
        0 <= i < j < items.len() ==> key(keys, #[trigger] items[i], a) <= key(
            keys,
            #[trigger] items[j],
            a,
        )
}

/// Every item has keys.
pub open spec fn keyed(keys: Seq<[u64; 3]>, items: Seq<usize>) -> bool {
    forall|i: int| 0 <= i < items.len() ==> #[trigger] items[i] < keys.len()
}

/// The subtree at `i` reads the same in two node lists that agree on `lo..hi`, when the
/// subtree lies within `lo..hi` in the first.
proof fn lemma_leaves_frame<B>(n1: Seq<BvhNode<B>>, n2: Seq<BvhNode<B>>, i: int, hi: int)
    requires
        0 <= i < hi <= n1.len(),
        hi <= n2.len(),
        children_within(n1, i, hi),
        forall|j: int| i <= j < hi ==> n1[j] == n2[j],
    ensures
        leaves_below(n1, i) == leaves_below(n2, i),
    decreases hi - i,
{
    assert(n1[i] == n2[i]);
    match n1[i] {
        BvhNode::Leaf(_) => {},
        BvhNode::Tree(l, r, _) => {
            lemma_leaves_frame(n1, n2, l as int, hi);
            lemma_leaves_frame(n1, n2, r as int, hi);
        },
    }
}

/// Sorts `items` by their keys along `axis`.
fn sort_by_axis(items: &mut Vec<usize>, keys: &Vec<[u64; 3]>, axis: usize)
    requires
        axis < 3,
        keyed(keys@, old(items)@),
    ensures
        final(items)@.len() == old(items)@.len(),
        final(items)@.to_multiset() == old(items)@.to_multiset(),
        keyed(keys@, final(items)@),
        sorted_on(keys@, final(items)@, axis),
{
    let n = items.len();
    if n < 2 {
        return;
    }
    let mut i: usize = 1;
    while i < n
        invariant
            axis < 3,
            n == items@.len(),
            1 <= i <= n,
            items@.to_multiset() == old(items)@.to_multiset(),
            keyed(keys@, items@),
            sorted_on(keys@, items@.subrange(0, i as int), axis),
        decreases n - i,
    {
        let mut j: usize = i;
        proof {
            assert forall|a: int, b: int|
                0 <= a < b <= i && b != j implies key(keys@, #[trigger] items@[a], axis) <= key(
                keys@,
                #[trigger] items@[b],
                axis,
            ) by {
                assert(items@.subrange(0, i as int)[a] == items@[a]);
                assert(items@.subrange(0, i as int)[b] == items@[b]);
            }
        }
        while j > 0 && keys[items[j - 1]][axis] > keys[items[j]][axis]
            invariant
                axis < 3,
                n == items@.len(),
                1 <= i < n,
                j <= i,
                items@.to_multiset() == old(items)@.to_multiset(),
                keyed(keys@, items@),
                forall|a: int, b: int|
                    0 <= a < b <= i && b != j ==> key(keys@, #[trigger] items@[a], axis) <= key(
                        keys@,
                        #[trigger] items@[b],
                        axis,
                    ),
            decreases j,
        {
            let x = items[j - 1];
            let y = items[j];
            let ghost before = items@;
            items.set(j - 1, y);
            items.set(j, x);
            assert(items@.to_multiset() =~= before.to_multiset());
            j -= 1;
        }
        proof {
            assert forall|a: int, b: int|
                0 <= a < b < i + 1 implies key(
                keys@,
                #[trigger] items@.subrange(0, i + 1)[a],
                axis,
            ) <= key(keys@, #[trigger] items@.subrange(0, i + 1)[b], axis) by {
                if b == j && a < j - 1 {
                    assert(key(keys@, items@[a], axis) <= key(keys@, items@[j - 1], axis));
                }
            }
        }
        i += 1;
    }
    assert(items@.subrange(0, n as int) =~= items@);
}

/// The number of nodes that the hierarchy over `n > 0` items takes: a root and one leaf
/// for one item, a root and two leaves for two, and for more a root followed by the
/// hierarchies over the lower half (rounded down) and the upper half.
pub open spec fn tree_size(n: nat) -> nat
    decreases n,
{
    if n <= 1 {
        2
    } else if n == 2 {
        3
    } else {
        1 + tree_size(n / 2) + tree_size((n - n / 2) as nat)
    }
}

/// The hierarchy over `n > 0` items stands at `nodes[i..i + tree_size(n)]` in preorder: an
/// inner node at `i` whose left child is at `i + 1`; with one item that child is its only
/// child and a leaf, with two items both children are leaves at `i + 1` and `i + 2`, and with
/// more the left subtree over `n / 2` items starts at `i + 1` and the right one over the rest
/// starts right after it.
pub open spec fn laid_out<B>(nodes: Seq<BvhNode<B>>, i: int, n: nat) -> bool
    decreases n,
{
    &&& 0 <= i
    &&& i + tree_size(n) <= nodes.len()
    &&& match nodes[i] {
        BvhNode::Tree(l, r, _) => {
            &&& l == i + 1
            &&& if n <= 1 {
                r == l && nodes[l as int] is Leaf
            } else if n == 2 {
                r == i + 2 && nodes[l as int] is Leaf && nodes[r as int] is Leaf
            } else {
                &&& r == i + 1 + tree_size(n / 2)
                &&& laid_out(nodes, l as int, n / 2)
                &&& laid_out(nodes, r as int, (n - n / 2) as nat)
            }
        },
        BvhNode::Leaf(_) => false,
    }
}

/// Node `j` belongs to the hierarchy over `n` items at node `i`: it is `i` or a node of one
/// of the subtrees below `i`.
pub open spec fn in_subtree<B>(nodes: Seq<BvhNode<B>>, i: int, n: nat, j: int) -> bool
    decreases n,
{
    match nodes[i] {
        BvhNode::Tree(l, r, _) => {
            ||| j == i
            ||| if n <= 2 {
                j == l || j == r
            } else {
                in_subtree(nodes, l as int, n / 2, j) || in_subtree(
                    nodes,
                    r as int,
                    (n - n / 2) as nat,
                    j,
                )
            }
        },
        BvhNode::Leaf(_) => j == i,
    }
}

/// The number of leaves among `nodes[lo..hi]`.
pub open spec fn leaf_count<B>(nodes: Seq<BvhNode<B>>, lo: int, hi: int) -> nat
    decreases hi - lo,
{
    if lo >= hi {
        0
    } else {
        (if nodes[lo] is Leaf {
            1nat
        } else {
            0nat
        }) + leaf_count(nodes, lo + 1, hi)
    }
}

/// Leaves of two adjacent ranges add up.
proof fn lemma_leaf_count_split<B>(nodes: Seq<BvhNode<B>>, lo: int, mid: int, hi: int)
    requires
        lo <= mid <= hi,
    ensures
        leaf_count(nodes, lo, hi) == leaf_count(nodes, lo, mid) + leaf_count(nodes, mid, hi),
    decreases mid - lo,
{
    if lo < mid {
        lemma_leaf_count_split(nodes, lo + 1, mid, hi);
    }
}

/// The layout of a subtree reads the same in two node lists that agree on its nodes.
proof fn lemma_layout_frame<B>(n1: Seq<BvhNode<B>>, n2: Seq<BvhNode<B>>, i: int, n: nat)
    requires
        laid_out(n1, i, n),
        i + tree_size(n) <= n2.len(),
        forall|j: int| i <= j < i + tree_size(n) ==> n1[j] == n2[j],
    ensures
        laid_out(n2, i, n),
    decreases n,
{
    assert(n1[i] == n2[i]);
    if n >= 3 {
        let l = i + 1;
        let r = i + 1 + tree_size(n / 2);
        lemma_layout_frame(n1, n2, l, n / 2);
        lemma_layout_frame(n1, n2, r, (n - n / 2) as nat);
    } else {
        assert(n1[i + 1] == n2[i + 1]);
        if n == 2 {
            assert(n1[i + 2] == n2[i + 2]);
        }
    }
}

/// A hierarchy over `n` items laid out at `i` holds exactly `n` leaves among its
/// `tree_size(n)` nodes, and every one of those nodes belongs to it.
pub proof fn lemma_layout_complete<B>(nodes: Seq<BvhNode<B>>, i: int, n: nat)
    requires
        n > 0,
        laid_out(nodes, i, n),
    ensures
        leaf_count(nodes, i, i + tree_size(n)) == n,
        forall|j: int| i <= j < i + tree_size(n) ==> #[trigger] in_subtree(nodes, i, n, j),
    decreases n,
{
    if n <= 2 {
        assert(leaf_count(nodes, i + tree_size(n), i + tree_size(n)) == 0);
        if n == 2 {
            assert(leaf_count(nodes, i + 2, i + 3) == 1);
        }
        assert(leaf_count(nodes, i + 1, i + tree_size(n)) == n);
    } else {
        let l = i + 1;
        let r = i + 1 + tree_size(n / 2);
        let e = i + tree_size(n);
        lemma_layout_complete(nodes, l, n / 2);
        lemma_layout_complete(nodes, r, (n - n / 2) as nat);
        lemma_leaf_count_split(nodes, l, r, e);
        assert(leaf_count(nodes, i, e) == leaf_count(nodes, l, e));
        assert forall|j: int| i <= j < e implies #[trigger] in_subtree(nodes, i, n, j) by {
            if l <= j < r {
                assert(in_subtree(nodes, l, n / 2, j));
            } else if r <= j {
                assert(in_subtree(nodes, r, (n - n / 2) as nat, j));
            }
        }
    }
}

/// `b` is what `bbox_of` gave for the items `items`, listed in some order.
pub open spec fn boxed_by<B, F: Fn(&[usize]) -> B>(bbox_of: F, items: Seq<usize>, b: B) -> bool {
    exists|s: &[usize]| s@.to_multiset() == items.to_multiset() && #[trigger] bbox_of.ensures((s,), b)
}

/// Along an axis that `axis_of` gave for the box `b`, no item of `left` has a larger key
/// than an item of `right`, and a side of one or two items lists them in order of that key.
pub open spec fn split_by<B, G: Fn(&B) -> usize>(
    axis_of: G,
    b: B,
    keys: Seq<[u64; 3]>,
    left: Seq<usize>,
    right: Seq<usize>,
) -> bool {
    exists|a: usize|
        a < 3 && #[trigger] axis_of.ensures((&b,), a) && (forall|x: usize, y: usize|
            left.contains(x) && right.contains(y) ==> key(keys, x, a) <= key(keys, y, a)) && (
        left.len() <= 2 ==> sorted_on(keys, left, a)) && (right.len() <= 2 ==> sorted_on(
            keys,
            right,
            a,
        ))
}

/// Node `j` is sound: an inner node holds the box of the items below it; with one or two
/// items below it its children are leaves, and with more its children are inner nodes, the
/// left one over half of the items (rounded down), those with the smaller keys along the
/// longest axis of the box.
pub open spec fn node_sound<B, F: Fn(&[usize]) -> B, G: Fn(&B) -> usize>(
    nodes: Seq<BvhNode<B>>,
    j: int,
    keys: Seq<[u64; 3]>,
    bbox_of: F,
    axis_of: G,
) -> bool {
    match nodes[j] {
        BvhNode::Tree(l, r, b) => {
            &&& boxed_by(bbox_of, leaves_below(nodes, j), b)
            &&& (nodes[l as int] is Leaf) == (leaves_below(nodes, j).len() <= 2)
            &&& (nodes[r as int] is Leaf) == (leaves_below(nodes, j).len() <= 2)
            &&& leaves_below(nodes, j).len() > 2 ==> leaves_below(nodes, l as int).len()
                == leaves_below(nodes, j).len() / 2
            &&& leaves_below(nodes, j).len() > 2 ==> split_by(
                axis_of,
                b,
                keys,
                leaves_below(nodes, l as int),
                leaves_below(nodes, r as int),
            )
        },
        BvhNode::Leaf(_) => true,
    }
}

/// Every node among `nodes[lo..hi]` is sound.
pub open spec fn nodes_sound<B, F: Fn(&[usize]) -> B, G: Fn(&B) -> usize>(
    nodes: Seq<BvhNode<B>>,
    lo: int,
    hi: int,
    keys: Seq<[u64; 3]>,
    bbox_of: F,
    axis_of: G,
) -> bool {
    forall|j: int| lo <= j < hi ==> #[trigger] node_sound(nodes, j, keys, bbox_of, axis_of)
}

/// Soundness of the nodes `lo..hi` carries over to a node list that agrees on `lo..hi`,
/// when the subtrees there lie within `lo..hi`.
proof fn lemma_sound_frame<B, F: Fn(&[usize]) -> B, G: Fn(&B) -> usize>(
    n1: Seq<BvhNode<B>>,
    n2: Seq<BvhNode<B>>,
    lo: int,
    hi: int,
    keys: Seq<[u64; 3]>,
    bbox_of: F,
    axis_of: G,
)
    requires
        0 <= lo < hi <= n1.len(),
        hi <= n2.len(),
        children_within(n1, lo, hi),
        forall|j: int| lo <= j < hi ==> n1[j] == n2[j],
        nodes_sound(n1, lo, hi, keys, bbox_of, axis_of),
    ensures
        children_within(n2, lo, hi),
        nodes_sound(n2, lo, hi, keys, bbox_of, axis_of),
        forall|j: int| lo <= j < hi ==> leaves_below(n1, j) == leaves_below(n2, j),
{
    assert forall|j: int| lo <= j < hi implies leaves_below(n1, j) == leaves_below(n2, j) by {
        lemma_leaves_frame(n1, n2, j, hi);
    }
    assert forall|j: int| lo <= j < hi implies #[trigger] node_sound(
        n2,
        j,
        keys,
        bbox_of,
        axis_of,
    ) by {
        assert(node_sound(n1, j, keys, bbox_of, axis_of));
        assert(n1[j] == n2[j]);
        match n1[j] {
            BvhNode::Tree(l, r, _) => {
                assert(leaves_below(n1, j) == leaves_below(n2, j));
                assert(leaves_below(n1, l as int) == leaves_below(n2, l as int));
                assert(leaves_below(n1, r as int) == leaves_below(n2, r as int));
            },
            BvhNode::Leaf(_) => {},
        }
    }
    assert forall|j: int| lo <= j < hi implies match #[trigger] n2[j] {
        BvhNode::Tree(l, r, _) => j < l && l <= r && r < hi,
        BvhNode::Leaf(_) => true,
    } by {
        assert(n1[j] == n2[j]);
    }
}

/// Halves of an item list sorted along `axis` split it by that axis: no item of the lower
/// half has a larger key than one of the upper half, and a half of one or two items that
/// stands in its sorted order is in key order.
proof fn lemma_split_halves<B, G: Fn(&B) -> usize>(
    axis_of: G,
    b: B,
    keys: Seq<[u64; 3]>,
    axis: usize,
    sorted: Seq<usize>,
    left: Seq<usize>,
    right: Seq<usize>,
    lb: Seq<usize>,
    rb: Seq<usize>,
)
    requires
        axis < 3,
        axis_of.ensures((&b,), axis),
        sorted_on(keys, sorted, axis),
        sorted == left + right,
        lb.to_multiset() == left.to_multiset(),
        rb.to_multiset() == right.to_multiset(),
        left.len() <= 2 ==> lb == left,
        right.len() <= 2 ==> rb == right,
    ensures
        split_by(axis_of, b, keys, lb, rb),
{
    let mid = left.len() as int;
    assert(lb.len() == left.len()) by {
        assert(lb.to_multiset().len() == lb.len());
        assert(left.to_multiset().len() == left.len());
    }
    assert(rb.len() == right.len()) by {
        assert(rb.to_multiset().len() == rb.len());
        assert(right.to_multiset().len() == right.len());
    }
    assert forall|x: usize, y: usize| lb.contains(x) && rb.contains(y) implies key(
        keys,
        x,
        axis,
    ) <= key(keys, y, axis) by {
        assert(left.to_multiset().count(x) > 0);
        assert(right.to_multiset().count(y) > 0);
        let i = choose|i: int| 0 <= i < left.len() && left[i] == x;
        let k = choose|k: int| 0 <= k < right.len() && right[k] == y;
        assert(sorted[i] == x);
        assert(sorted[mid + k] == y);
    }
    if left.len() <= 2 {
        assert forall|i: int, k: int| 0 <= i < k < lb.len() implies key(
            keys,
            #[trigger] lb[i],
            axis,
        ) <= key(keys, #[trigger] lb[k], axis) by {
            assert(lb[i] == sorted[i] && lb[k] == sorted[k]);
        }
    }
    if right.len() <= 2 {
        assert forall|i: int, k: int| 0 <= i < k < rb.len() implies key(
            keys,
            #[trigger] rb[i],
            axis,
        ) <= key(keys, #[trigger] rb[k], axis) by {
            assert(rb[i] == sorted[mid + i] && rb[k] == sorted[mid + k]);
        }
    }
}

/// Builds the subtree over `items` at the end of `nodes`, in preorder: a root with the box of
/// all the items, then, for one or two items, a leaf for each; for more, the items sorted by
/// their keys along the box's longest axis, the lower half below the left child and the upper
/// half below the right child.
fn build_rec<B, F: Fn(&[usize]) -> B, G: Fn(&B) -> usize>(
    nodes: &mut Vec<BvhNode<B>>,
    items: Vec<usize>,
    keys: &Vec<[u64; 3]>,
    bbox_of: &F,
    axis_of: &G,
)
    requires
        items@.len() > 0,
        keyed(keys@, items@),
        forall|s: &[usize]| #[trigger] bbox_of.requires((s,)),
        forall|b: &B| #[trigger] axis_of.requires((b,)),
        forall|b: &B, a: usize| #[trigger] axis_of.ensures((b,), a) ==> a < 3,
    ensures
        final(nodes)@.len() == old(nodes)@.len() + tree_size(items@.len()),
        laid_out(final(nodes)@, old(nodes)@.len() as int, items@.len()),
        leaf_count(final(nodes)@, old(nodes)@.len() as int, final(nodes)@.len() as int)
            == items@.len(),
        forall|j: int|
            old(nodes)@.len() <= j < final(nodes)@.len() ==> #[trigger] in_subtree(
                final(nodes)@,
                old(nodes)@.len() as int,
                items@.len(),
                j,
            ),
        final(nodes)@.subrange(0, old(nodes)@.len() as int) == old(nodes)@,
        final(nodes)@[old(nodes)@.len() as int] is Tree,
        children_within(final(nodes)@, old(nodes)@.len() as int, final(nodes)@.len() as int),
        leaves_below(final(nodes)@, old(nodes)@.len() as int).to_multiset() == items@.to_multiset(),
        items@.len() <= 2 ==> leaves_below(final(nodes)@, old(nodes)@.len() as int) == items@,
        nodes_sound(
            final(nodes)@,
            old(nodes)@.len() as int,
            final(nodes)@.len() as int,
            keys@,
            *bbox_of,
            *axis_of,
        ),
    decreases items@.len(),
{
    let ghost n0 = nodes@;
    let ghost count = items@.len();
    let root = nodes.len();
    let slice = items.as_slice();
    let bbox = bbox_of(slice);
    assert(boxed_by(*bbox_of, items@, bbox));
    // Replaced by the root once its children are placed.
    nodes.push(BvhNode::Leaf(0));
    if items.len() == 1 {
        let l = nodes.len();
        nodes.push(BvhNode::Leaf(items[0]));
        nodes.set(root, BvhNode::Tree(l, l, bbox));
        assert(nodes@.subrange(0, root as int) =~= n0);
        assert(leaves_below(nodes@, l as int) =~= items@);
        assert(leaves_below(nodes@, root as int) =~= items@);
        assert(node_sound(nodes@, root as int, keys@, *bbox_of, *axis_of));
        assert(node_sound(nodes@, l as int, keys@, *bbox_of, *axis_of));
    } else if items.len() == 2 {
        let l = nodes.len();
        nodes.push(BvhNode::Leaf(items[0]));
        let r = nodes.len();
        nodes.push(BvhNode::Leaf(items[1]));
        nodes.set(root, BvhNode::Tree(l, r, bbox));
        assert(nodes@.subrange(0, root as int) =~= n0);
        assert(leaves_below(nodes@, l as int) =~= seq![items@[0]]);
        assert(leaves_below(nodes@, r as int) =~= seq![items@[1]]);
        assert(leaves_below(nodes@, root as int) =~= items@);
        assert(node_sound(nodes@, root as int, keys@, *bbox_of, *axis_of));
        assert(node_sound(nodes@, l as int, keys@, *bbox_of, *axis_of));
        assert(node_sound(nodes@, r as int, keys@, *bbox_of, *axis_of));
    } else {
        let axis = axis_of(&bbox);
        let ghost unsorted = items@;
        let mut items = items;
        sort_by_axis(&mut items, keys, axis);
        let mid = items.len() / 2;
        let ghost sorted = items@;
        let right = items.split_off(mid);
        let left = items;
        assert(sorted =~= left@ + right@);
        let ghost n1 = nodes@;
        let l = nodes.len();
        build_rec(nodes, left, keys, bbox_of, axis_of);
        let ghost n2 = nodes@;
        let r = nodes.len();
        nodes.set(root, BvhNode::Tree(l, r, bbox));
        let ghost n3 = nodes@;
        build_rec(nodes, right, keys, bbox_of, axis_of);
        let ghost n4 = nodes@;
        proof {
            assert forall|j: int| l <= j < r implies n2[j] == n4[j] by {
                assert(n4[j] == n4.subrange(0, r as int)[j]);
                assert(n3[j] == n2[j]);
            }
            lemma_sound_frame(n2, n4, l as int, r as int, keys@, *bbox_of, *axis_of);
            lemma_layout_frame(n2, n4, l as int, left@.len());
            assert(left@.len() == unsorted.len() / 2);
            assert(right@.len() == unsorted.len() - unsorted.len() / 2);
            let n = unsorted.len();
            assert(tree_size(n) == 1 + tree_size(n / 2) + tree_size((n - n / 2) as nat));
            // The root was placed before the right subtree was built.
            assert(n4[root as int] == n4.subrange(0, r as int)[root as int]);
            assert(n4[root as int] == BvhNode::Tree(l, r, bbox));
            assert(laid_out(n4, root as int, n));
            assert(n4.subrange(0, root as int) =~= n0) by {
                assert forall|j: int| 0 <= j < root implies n4[j] == n0[j] by {
                    assert(n4[j] == n4.subrange(0, r as int)[j]);
                    assert(n2[j] == n2.subrange(0, l as int)[j]);
                }
            }
            let lb = leaves_below(n4, l as int);
            let rb = leaves_below(n4, r as int);
            assert(leaves_below(n4, root as int) == lb + rb);
            assert(lb.to_multiset() == left@.to_multiset());
            assert(lb.len() == left@.len()) by {
                assert(lb.to_multiset().len() == lb.len());
                assert(left@.to_multiset().len() == left@.len());
            }
            assert(rb.to_multiset() == right@.to_multiset());
            vstd::seq_lib::lemma_multiset_commutative(lb, rb);
            vstd::seq_lib::lemma_multiset_commutative(left@, right@);
            assert((lb + rb).to_multiset() =~= sorted.to_multiset());
            assert(leaves_below(n4, root as int).len() > 2) by {
                assert(sorted.to_multiset().len() == sorted.len());
                assert((lb + rb).to_multiset().len() == (lb + rb).len());
            }
            lemma_split_halves(*axis_of, bbox, keys@, axis, sorted, left@, right@, lb, rb);
            assert(split_by(*axis_of, bbox, keys@, lb, rb));
            assert(n4[l as int] == n2[l as int]);
            assert(n4[l as int] is Tree);
            assert((lb + rb).len() == sorted.len()) by {
                assert((lb + rb).to_multiset().len() == (lb + rb).len());
                assert(sorted.to_multiset().len() == sorted.len());
            }
            assert(left@.len() == mid);
            assert(lb.len() == (lb + rb).len() / 2);
            assert(n4[r as int] is Tree);
            assert(node_sound(n4, root as int, keys@, *bbox_of, *axis_of));
            assert forall|j: int| root <= j < n4.len() implies #[trigger] node_sound(
                n4,
                j,
                keys@,
                *bbox_of,
                *axis_of,
            ) by {
                if j == root {
                } else if j < r {
                } else {
                }
            }
            assert forall|j: int| root <= j < n4.len() implies match #[trigger] n4[j] {
                BvhNode::Tree(cl, cr, _) => j < cl && cl <= cr && cr < n4.len(),
                BvhNode::Leaf(_) => true,
            } by {
                if j == root {
                } else if j < r {
                    assert(children_within(n4, l as int, r as int));
                } else {
                }
            }
        }
    }
    proof {
        lemma_layout_complete(nodes@, root as int, count);
    }
}

/// `enter` answers like a function: equal arguments, equal answers.
pub open spec fn enter_functional<B, R, E: Fn(&B, &R) -> Option<R>>(enter: E) -> bool {
    forall|b: &B, t: &R, o1: Option<R>, o2: Option<R>|
        #![trigger enter.ensures((b, t), o1), enter.ensures((b, t), o2)]
        enter.ensures((b, t), o1) && enter.ensures((b, t), o2) ==> o1 == o2
}

/// `visit` answers like a function: equal arguments, equal answers.
pub open spec fn visit_functional<R, S, V: Fn(S, usize, usize, &R) -> S>(visit: V) -> bool {
    forall|st: S, j: usize, x: usize, t: &R, o1: S, o2: S|
        #![trigger visit.ensures((st, j, x, t), o1), visit.ensures((st, j, x, t), o2)]
        visit.ensures((st, j, x, t), o1) && visit.ensures((st, j, x, t), o2) ==> o1 == o2
}

/// What `enter` answers for the box `b` and the range `lim`.
pub open spec fn entered<B, R, E: Fn(&B, &R) -> Option<R>>(enter: E, b: B, lim: R) -> Option<R> {
    choose|o: Option<R>| enter.ensures((&b, &lim), o)
}

/// What `visit` answers for the state `s`, the leaf at node `j` with item `x`, and `lim`.
pub open spec fn visited<R, S, V: Fn(S, usize, usize, &R) -> S>(
    visit: V,
    s: S,
    j: usize,
    x: usize,
    lim: R,
) -> S {
    choose|o: S| visit.ensures((s, j, x, &lim), o)
}

/// The state after walking the subtree at node `i` within the range `lim` from state `s`:
/// a leaf is handed to `visit`; at an inner node, `enter` either rejects the range for the
/// node's box, leaving the state as it is, or narrows it, and the walk goes on with the
/// narrowed range through the right subtree, then the left one (the same child twice when
/// both children coincide).
pub open spec fn walk_from<B, R, S, E: Fn(&B, &R) -> Option<R>, V: Fn(S, usize, usize, &R) -> S>(
    nodes: Seq<BvhNode<B>>,
    i: int,
    lim: R,
    s: S,
    enter: E,
    visit: V,
) -> S
    decreases nodes.len() - i,
{
    if 0 <= i < nodes.len() {
        match nodes[i] {
            BvhNode::Leaf(x) => visited(visit, s, i as usize, x, lim),
            BvhNode::Tree(l, r, b) => {
                if i < l && l <= r && r < nodes.len() {
                    match entered(enter, b, lim) {
                        None => s,
                        Some(inner) => walk_from(
                            nodes,
                            l as int,
                            inner,
                            walk_from(nodes, r as int, inner, s, enter, visit),
                            enter,
                            visit,
                        ),
                    }
                } else {
                    s
                }
            },
        }
    } else {
        s
    }
}

/// The number of inner nodes on the path from node `i`, the root of a hierarchy over `n`
/// items laid out in preorder, down to node `j`.
pub open spec fn path_depth<B>(nodes: Seq<BvhNode<B>>, i: int, n: nat, j: int) -> nat
    decreases n,
{
    match nodes[i] {
        BvhNode::Tree(l, r, _) => {
            if n <= 2 {
                1
            } else if j < r {
                1 + path_depth(nodes, l as int, n / 2, j)
            } else {
                1 + path_depth(nodes, r as int, (n - n / 2) as nat, j)
            }
        },
        BvhNode::Leaf(_) => 0,
    }
}

/// The number of leaf visits of a walk that enters every box of a hierarchy over `n > 0`
/// items: each leaf once, and the leaf of a one-item node twice, as both children of its
/// parent.
pub open spec fn visit_count(n: nat) -> nat
    decreases n,
{
    if n <= 2 {
        2
    } else {
        visit_count(n / 2) + visit_count((n - n / 2) as nat)
    }
}

/// What a walk does, seen through callbacks that accept every box and count the inner
/// nodes passed (`enter` answers the range plus one) and record each leaf with the range it
/// was handed (`visit` appends the pair). The walk keeps what the state held; it hands over
/// only leaves of the subtree, `visit_count(n)` times, each with the range it started with plus the number of inner
/// nodes on its path, so every accepting box narrows the range for both its subtrees; every
/// leaf of the subtree is handed over; and leaves come right subtree first, so their node
/// indices never grow.
pub proof fn lemma_walk_reaches_every_leaf<
    B,
    E: Fn(&B, &int) -> Option<int>,
    V: Fn(Seq<(usize, int)>, usize, usize, &int) -> Seq<(usize, int)>,
>(
    nodes: Seq<BvhNode<B>>,
    i: int,
    n: nat,
    d: int,
    s: Seq<(usize, int)>,
    enter: E,
    visit: V,
)
    requires
        n > 0,
        laid_out(nodes, i, n),
        forall|b: &B, t: &int, o: Option<int>| #[trigger]
            enter.ensures((b, t), o) <==> o == Some(*t + 1),
        forall|st: Seq<(usize, int)>, j: usize, x: usize, t: &int, o: Seq<(usize, int)>| #[trigger]
            visit.ensures((st, j, x, t), o) <==> o == st.push((j, *t)),
    ensures
        ({
            let out = walk_from(nodes, i, d, s, enter, visit);
            &&& out.len() == s.len() + visit_count(n)
            &&& out.subrange(0, s.len() as int) == s
            &&& forall|k: int|
                s.len() <= k < out.len() ==> {
                    &&& i <= (#[trigger] out[k]).0 < i + tree_size(n)
                    &&& nodes[out[k].0 as int] is Leaf
                    &&& out[k].1 == d + path_depth(nodes, i, n, out[k].0 as int)
                }
            &&& forall|j: int|
                i <= j < i + tree_size(n) && #[trigger] nodes[j] is Leaf ==> exists|k: int|
                    s.len() <= k < out.len() && (#[trigger] out[k]).0 == j
            &&& forall|k1: int, k2: int|
                s.len() <= k1 < k2 < out.len() ==> (#[trigger] out[k2]).0 <= (#[trigger] out[k1]).0
        }),
    decreases n,
{
    let out = walk_from(nodes, i, d, s, enter, visit);
    if let BvhNode::Tree(l, r, b) = nodes[i] {
        assert(enter.ensures((&b, &d), Some(d + 1)));
        assert(entered(enter, b, d) == Some(d + 1));
        let inner = d + 1;
        if n <= 2 {
            let bl = nodes[l as int];
            let br = nodes[r as int];
            let xl = bl->Leaf_0;
            let xr = br->Leaf_0;
            let mid = s.push((r, inner));
            assert(visit.ensures((s, r, xr, &inner), mid));
            assert(visited(visit, s, r, xr, inner) == mid);
            assert(walk_from(nodes, r as int, inner, s, enter, visit) == mid);
            assert(visit.ensures((mid, l, xl, &inner), mid.push((l, inner))));
            assert(visited(visit, mid, l, xl, inner) == mid.push((l, inner)));
            assert(walk_from(nodes, l as int, inner, mid, enter, visit) == mid.push((l, inner)));
            assert(out == s.push((r, inner)).push((l, inner)));
            assert(out.subrange(0, s.len() as int) =~= s);
            assert forall|j: int|
                i <= j < i + tree_size(n) && #[trigger] nodes[j] is Leaf implies exists|k: int|
                    s.len() <= k < out.len() && (#[trigger] out[k]).0 == j by {
                if j == l {
                    assert(out[s.len() as int + 1].0 == j);
                } else {
                    assert(out[s.len() as int].0 == j);
                }
            }
        } else {
            let m = n / 2;
            let e = i + tree_size(n);
            let mid = walk_from(nodes, r as int, inner, s, enter, visit);
            lemma_walk_reaches_every_leaf(nodes, r as int, (n - m) as nat, inner, s, enter, visit);
            lemma_walk_reaches_every_leaf(nodes, l as int, m, inner, mid, enter, visit);
            assert(out == walk_from(nodes, l as int, inner, mid, enter, visit));
            assert(out.subrange(0, s.len() as int) =~= s) by {
                assert forall|k: int| 0 <= k < s.len() implies out[k] == s[k] by {
                    assert(out[k] == out.subrange(0, mid.len() as int)[k]);
                    assert(mid[k] == mid.subrange(0, s.len() as int)[k]);
                }
            }
            assert forall|k: int| s.len() <= k < out.len() implies {
                &&& i <= (#[trigger] out[k]).0 < i + tree_size(n)
                &&& nodes[out[k].0 as int] is Leaf
                &&& out[k].1 == d + path_depth(nodes, i, n, out[k].0 as int)
            } by {
                if k < mid.len() {
                    assert(out[k] == out.subrange(0, mid.len() as int)[k]);
                    assert(mid[k].0 >= r);
                } else {
                    assert(out[k].0 < r);
                }
            }
            assert forall|j: int|
                i <= j < e && #[trigger] nodes[j] is Leaf implies exists|k: int|
                    s.len() <= k < out.len() && (#[trigger] out[k]).0 == j by {
                if j >= r {
                    let k = choose|k: int| s.len() <= k < mid.len() && (#[trigger] mid[k]).0 == j;
                    assert(out[k] == out.subrange(0, mid.len() as int)[k]);
                } else {
                    assert(j != i);
                    assert(l <= j < r);
                }
            }
            assert forall|k1: int, k2: int|
                s.len() <= k1 < k2 < out.len() implies (#[trigger] out[k2]).0 <= (
                #[trigger] out[k1]).0 by {
                if k2 < mid.len() {
                    assert(out[k1] == out.subrange(0, mid.len() as int)[k1]);
                    assert(out[k2] == out.subrange(0, mid.len() as int)[k2]);
                    assert(mid[k2].0 <= mid[k1].0);
                } else if k1 < mid.len() {
                    assert(out[k1] == out.subrange(0, mid.len() as int)[k1]);
                    assert(mid[k1].0 >= r);
                    assert(out[k2].0 < r);
                }
            }
        }
    }
}

/// A walk whose `enter` rejects every box hands no leaf to `visit`: the state comes back
/// as it was.
pub proof fn lemma_walk_rejected<B, R, S, E: Fn(&B, &R) -> Option<R>, V: Fn(S, usize, usize, &R) -> S>(
    nodes: Seq<BvhNode<B>>,
    i: int,
    n: nat,
    lim: R,
    s: S,
    enter: E,
    visit: V,
)
    requires
        laid_out(nodes, i, n),
        forall|b: &B, t: &R, o: Option<R>| #[trigger] enter.ensures((b, t), o) <==> o is None,
    ensures
        walk_from(nodes, i, lim, s, enter, visit) == s,
{
    if let BvhNode::Tree(_, _, b) = nodes[i] {
        assert(enter.ensures((&b, &lim), None::<R>));
    }
}

/// The items `0..n`.
pub open spec fn all_items(n: nat) -> Seq<usize> {
    Seq::new(n, |i: int| i as usize)
}

/// A bounding volume hierarchy over items `0..n`, its nodes in preorder, the root first.
pub struct Bvh<B> {
    nodes: Vec<BvhNode<B>>,
}

impl<B> Bvh<B> {
    /// The root is an inner node and every inner node points forward to nodes of the list.
    #[verifier::type_invariant]
    spec fn rooted(self) -> bool {
        &&& self.nodes@.len() > 0
        &&& self.nodes@[0] is Tree
        &&& children_within(self.nodes@, 0, self.nodes@.len() as int)
    }

    /// The nodes, the root first.
    pub closed spec fn nodes(self) -> Seq<BvhNode<B>> {
        self.nodes@
    }

    /// The hierarchy over the items `0..keys.len()`, where `keys[i]` holds the keys of
    /// item `i` along the three axes, `bbox_of` bounds a set of items and `axis_of` picks
    /// the longest axis of a box. Every item stands in exactly one leaf below the root; the
    /// nodes are exactly those of the hierarchy, `tree_size(n)` of them in preorder, `n` of
    /// them leaves; with one or two items the leaves hold them in index order.
    pub fn new<F: Fn(&[usize]) -> B, G: Fn(&B) -> usize>(
        keys: &Vec<[u64; 3]>,
        bbox_of: F,
        axis_of: G,
    ) -> (bvh: Self)
        requires
            keys@.len() > 0,
            forall|s: &[usize]| #[trigger] bbox_of.requires((s,)),
            forall|b: &B| #[trigger] axis_of.requires((b,)),
            forall|b: &B, a: usize| #[trigger] axis_of.ensures((b,), a) ==> a < 3,
        ensures
            bvh.nodes().len() > 0,
            bvh.nodes()[0] is Tree,
            children_within(bvh.nodes(), 0, bvh.nodes().len() as int),
            leaves_below(bvh.nodes(), 0).to_multiset() == all_items(keys@.len()).to_multiset(),
            keys@.len() <= 2 ==> leaves_below(bvh.nodes(), 0) == all_items(keys@.len()),
            bvh.nodes().len() == tree_size(keys@.len()),
            laid_out(bvh.nodes(), 0, keys@.len()),
            leaf_count(bvh.nodes(), 0, bvh.nodes().len() as int) == keys@.len(),
            forall|j: int|
                0 <= j < bvh.nodes().len() ==> #[trigger] in_subtree(
                    bvh.nodes(),
                    0,
                    keys@.len(),
                    j,
                ),
            nodes_sound(bvh.nodes(), 0, bvh.nodes().len() as int, keys@, bbox_of, axis_of),
    {
        let n = keys.len();
        let mut items: Vec<usize> = Vec::new();
        let mut i: usize = 0;
        while i < n
            invariant
                n == keys@.len(),
                i <= n,
                items@ == all_items(i as nat),
            decreases n - i,
        {
            items.push(i);
            i += 1;
            assert(items@ =~= all_items(i as nat));
        }
        let mut nodes: Vec<BvhNode<B>> = Vec::new();
        build_rec(&mut nodes, items, keys, &bbox_of, &axis_of);
        assert(nodes@.len() > 0);
        Bvh { nodes }
    }

    /// Walks the subtree at node `i`; see `walk_from`.
    fn walk<R: Copy, S, E: Fn(&B, &R) -> Option<R>, V: Fn(S, usize, usize, &R) -> S>(
        &self,
        i: usize,
        lim: R,
        s: S,
        enter: &E,
        visit: &V,
    ) -> (out: S)
        requires
            i < self.nodes().len(),
            forall|b: &B, t: &R| #[trigger] enter.requires((b, t)),
            forall|st: S, j: usize, x: usize, t: &R| #[trigger] visit.requires((st, j, x, t)),
        ensures
            enter_functional(*enter) && visit_functional(*visit) ==> out == walk_from(
                self.nodes(),
                i as int,
                lim,
                s,
                *enter,
                *visit,
            ),
        decreases self.nodes().len() - i,
    {
        proof {
            use_type_invariant(self);
        }
        let ghost s0 = s;
        match &self.nodes[i] {
            BvhNode::Leaf(x) => {
                let out = visit(s, i, *x, &lim);
                assert(enter_functional(*enter) && visit_functional(*visit) ==> out == visited(
                    *visit,
                    s0,
                    i,
                    *x,
                    lim,
                ));
                out
            },
            BvhNode::Tree(l, r, b) => {
                let (l, r) = (*l, *r);
                assert(i < l && l <= r && r < self.nodes().len()) by {
                    assert(self.nodes@[i as int] is Tree);
                }
                let answer = enter(b, &lim);
                assert(enter_functional(*enter) ==> answer == entered(*enter, *b, lim));
                match answer {
                    None => s,
                    Some(inner) => {
                        let mid = self.walk(r, inner, s, enter, visit);
                        self.walk(l, inner, mid, enter, visit)
                    },
                }
            },
        }
    }

    /// Walks the whole hierarchy from the root within the range `lim`, from state `init`:
    /// every inner node whose box `enter` accepts narrows the range for its subtrees, right
    /// subtree first, and every leaf reached is handed to `visit` with the current state, its
    /// node index, its item and the range. When both callbacks answer like functions, the
    /// result is `walk_from` at the root.
    pub fn traverse<R: Copy, S, E: Fn(&B, &R) -> Option<R>, V: Fn(S, usize, usize, &R) -> S>(
        &self,
        lim: R,
        init: S,
        enter: E,
        visit: V,
    ) -> (out: S)
        requires
            forall|b: &B, t: &R| #[trigger] enter.requires((b, t)),
            forall|st: S, j: usize, x: usize, t: &R| #[trigger] visit.requires((st, j, x, t)),
        ensures
            enter_functional(enter) && visit_functional(visit) ==> out == walk_from(
                self.nodes(),
                0,
                lim,
                init,
                enter,
                visit,
            ),
    {
        proof {
            use_type_invariant(self);
        }
        self.walk(0, lim, init, &enter, &visit)
    }

    /// The number of nodes.
    pub fn node_count(&self) -> (n: usize)
        ensures
            n == self.nodes().len(),
    {
        self.nodes.len()
    }

    /// Node `i`.
    pub fn node(&self, i: usize) -> (node: &BvhNode<B>)
        requires
            i < self.nodes().len(),
        ensures
            *node == self.nodes()[i as int],
    {
        &self.nodes[i]
    }

    /// The box of the root: the box around all the items.
    pub fn bounding_box(&self) -> (b: &B)
        ensures
            self.nodes()[0] matches BvhNode::Tree(_, _, root_box) && *b == root_box,
    {
        proof {
            use_type_invariant(self);
        }
        match &self.nodes[0] {
            BvhNode::Tree(_, _, b) => b,
            BvhNode::Leaf(_) => vstd::pervasive::unreached(),
        }
    }

    /// The item of node `i` when it is a leaf; `None` for an inner node.
    pub fn leaf_item(&self, i: usize) -> (item: Option<usize>)
        requires
            i < self.nodes().len(),
        ensures
            match self.nodes()[i as int] {
                BvhNode::Leaf(x) => item == Some(x),
                BvhNode::Tree(..) => item is None,
            },
    {
        match &self.nodes[i] {
            BvhNode::Leaf(x) => Some(*x),
            BvhNode::Tree(..) => None,
        }
    }
}

} // verus!
