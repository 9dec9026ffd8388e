//! The prefix-code tree and its assembly order.
//!
//! A tree is grown from one leaf per distinct symbol by repeatedly merging
//! the two lowest-weight nodes of the active set into a fresh internal
//! node, until a single root remains.  Ties on the minimal weight are
//! broken deterministically: the node standing earliest in the active
//! list wins, and each merged node is appended at the end of the list.

use vstd::prelude::*;

verus! {

/// One node of the prefix-code tree.  A leaf carries a symbol in
/// `character` and has no children; an internal node carries no symbol
/// and owns both children.  `value` is the node's weight: the total
/// occurrence count of every symbol beneath it.  Nodes are not mutated
/// after construction.
pub struct TreeNode {
    pub value: u32,
    pub left: Option<Box<TreeNode>>,
    pub right: Option<Box<TreeNode>>,
    pub character: Option<char>,
}

impl TreeNode {
    pub fn new(
        value: u32,
        left: Option<Box<TreeNode>>,
        right: Option<Box<TreeNode>>,
        character: Option<char>,
    ) -> (n: TreeNode)
        ensures
            n == (TreeNode { value, left, right, character }),
    {
        TreeNode { value, left, right, character }
    }

    /// A node is a leaf exactly when it carries a symbol.
    pub open spec fn is_leaf(self) -> bool {
        self.character is Some
    }

    /// Well-formedness: a leaf has no children and positive weight; an
    /// internal node has both children, each well-formed, and its weight
    /// is exactly the sum of its children's weights.
    pub open spec fn wf(self) -> bool
        decreases self,
    {
        match self.character {
            Some(_) => self.left is None && self.right is None && self.value >= 1,
            None => match (self.left, self.right) {
                (Some(l), Some(r)) => l.wf() && r.wf() && self.value == l.value + r.value,
                _ => false,
            },
        }
    }

    /// The set of symbols carried by the leaves beneath this node.
    pub open spec fn symbols(self) -> Set<char>
        decreases self,
    {
        match self.character {
            Some(c) => set![c],
            None => match (self.left, self.right) {
                (Some(l), Some(r)) => l.symbols().union(r.symbols()),
                _ => Set::empty(),
            },
        }
    }
}

/// The sum of the weights of a sequence of nodes.
pub open spec fn sum_weights(s: Seq<TreeNode>) -> int
    decreases s.len(),
{
    if s.len() == 0 {
        0
    } else {
        sum_weights(s.drop_last()) + s.last().value
    }
}

/// Every node of the sequence is well-formed.
pub open spec fn all_wf(s: Seq<TreeNode>) -> bool {
    forall|i: int| 0 <= i < s.len() ==> #[trigger] s[i].wf()
}

/// The union of the symbol sets of all nodes of the sequence.
pub open spec fn all_symbols(s: Seq<TreeNode>) -> Set<char>
    decreases s.len(),
{
    if s.len() == 0 {
        Set::empty()
    } else {
        all_symbols(s.drop_last()).union(s.last().symbols())
    }
}

/// The index of the first node of minimal weight.  The strict comparison
/// makes the earliest minimal node win, which is the documented
/// tie-break rule.
pub open spec fn min_idx(s: Seq<TreeNode>) -> int
    decreases s.len(),
{
    if s.len() <= 1 {
        0
    } else {
        let m = min_idx(s.drop_last());
        if s.last().value < s[m].value {
            s.len() - 1
        } else {
            m
        }
    }
}

/// The internal node that merges `a` (left) and `b` (right).
pub open spec fn merged(a: TreeNode, b: TreeNode) -> TreeNode {
    TreeNode {
        value: (a.value + b.value) as u32,
        left: Some(Box::new(a)),
        right: Some(Box::new(b)),
        character: None,
    }
}

/// One assembly step on an active set of at least two nodes: remove the
/// two lowest-weight nodes (earliest first on ties) and append their
/// merge at the end.
pub open spec fn merge_step(s: Seq<TreeNode>) -> Seq<TreeNode> {
    let i = min_idx(s);
    let s1 = s.remove(i);
    let j = min_idx(s1);
    let s2 = s1.remove(j);
    s2.push(merged(s[i], s1[j]))
}

/// The tree assembled from a non-empty active set by repeated merging.
pub open spec fn build_tree_spec(s: Seq<TreeNode>) -> TreeNode
    decreases s.len(),
    via build_tree_spec_decreases
{
    if s.len() <= 1 {
        s[0]
    } else {
        build_tree_spec(merge_step(s))
    }
}

#[via_fn]
proof fn build_tree_spec_decreases(s: Seq<TreeNode>) {
    if s.len() > 1 {
        lemma_merge_step_len(s);
    }
}

/// One merge step shortens the active set by exactly one node.
pub proof fn lemma_merge_step_len(s: Seq<TreeNode>)
    requires
        s.len() >= 2,
    ensures
        merge_step(s).len() == s.len() - 1,
{
    lemma_min_idx(s);
    lemma_min_idx(s.remove(min_idx(s)));
}

/// The first minimal index is in range and minimal.
pub proof fn lemma_min_idx(s: Seq<TreeNode>)
    requires
        s.len() >= 1,
    ensures
        0 <= min_idx(s) < s.len(),
        forall|k: int| 0 <= k < s.len() ==> s[min_idx(s)].value <= #[trigger] s[k].value,
    decreases s.len(),
{
    if s.len() > 1 {
        lemma_min_idx(s.drop_last());
        assert(forall|k: int| 0 <= k < s.len() - 1 ==> s.drop_last()[k] == s[k]);
    }
}

/// Removing one node takes its weight out of the sum.
pub proof fn lemma_sum_remove(s: Seq<TreeNode>, i: int)
    requires
        0 <= i < s.len(),
    ensures
        sum_weights(s) == sum_weights(s.remove(i)) + s[i].value,
    decreases s.len(),
{
    if i == s.len() - 1 {
        assert(s.remove(i) =~= s.drop_last());
    } else {
        lemma_sum_remove(s.drop_last(), i);
        assert(s.remove(i).drop_last() =~= s.drop_last().remove(i));
        assert(s.remove(i).last() == s.last());
    }
}

/// Appending one node adds its weight to the sum.
pub proof fn lemma_sum_push(s: Seq<TreeNode>, n: TreeNode)
    ensures
        sum_weights(s.push(n)) == sum_weights(s) + n.value,
{
    assert(s.push(n).drop_last() =~= s);
}

/// Removing one node takes its symbols out of the union; the rest stay.
pub proof fn lemma_symbols_remove(s: Seq<TreeNode>, i: int)
    requires
        0 <= i < s.len(),
    ensures
        all_symbols(s) =~= all_symbols(s.remove(i)).union(s[i].symbols()),
    decreases s.len(),
{
    if i == s.len() - 1 {
        assert(s.remove(i) =~= s.drop_last());
    } else {
        lemma_symbols_remove(s.drop_last(), i);
        assert(s.remove(i).drop_last() =~= s.drop_last().remove(i));
        assert(s.remove(i).last() == s.last());
    }
}

/// Appending one node adds its symbols to the union.
pub proof fn lemma_symbols_push(s: Seq<TreeNode>, n: TreeNode)
    ensures
        all_symbols(s.push(n)) =~= all_symbols(s).union(n.symbols()),
{
    assert(s.push(n).drop_last() =~= s);
}

/// One merge step keeps the total weight, keeps the symbol union, keeps
/// well-formedness of every node, and shortens the set by one.
pub proof fn lemma_merge_step(s: Seq<TreeNode>)
    requires
        s.len() >= 2,
        all_wf(s),
        sum_weights(s) <= u32::MAX,
    ensures
        merge_step(s).len() == s.len() - 1,
        all_wf(merge_step(s)),
        sum_weights(merge_step(s)) == sum_weights(s),
        all_symbols(merge_step(s)) =~= all_symbols(s),
{
    let i = min_idx(s);
    let s1 = s.remove(i);
    let j = min_idx(s1);
    let s2 = s1.remove(j);
    lemma_min_idx(s);
    lemma_min_idx(s1);
    lemma_sum_remove(s, i);
    lemma_sum_remove(s1, j);
    lemma_sum_all_nonneg(s2);
    assert(s[i].value + s1[j].value <= u32::MAX);
    assert(forall|k: int| 0 <= k < s1.len() ==> s1[k] == (if k < i { s[k] } else { s[k + 1] }));
    assert(s[i].wf());
    assert(s1[j].wf()) by {
        if j < i {
            assert(s[j].wf());
        } else {
            assert(s[j + 1].wf());
        }
    }
    let m = merged(s[i], s1[j]);
    assert(m.wf());
    lemma_sum_push(s2, m);
    lemma_symbols_remove(s, i);
    lemma_symbols_remove(s1, j);
    lemma_symbols_push(s2, m);
    assert(m.symbols() =~= s[i].symbols().union(s1[j].symbols()));
    assert forall|k: int| 0 <= k < merge_step(s).len() implies #[trigger] merge_step(s)[k].wf() by {
        if k < s2.len() {
            assert(merge_step(s)[k] == s2[k]);
        } else {
            assert(merge_step(s)[k] == m);
        }
    }
}

/// Every weight is non-negative, so every partial sum is bounded by the whole.
pub proof fn lemma_sum_all_nonneg(s: Seq<TreeNode>)
    ensures
        sum_weights(s) >= 0,
    decreases s.len(),
{
    if s.len() > 0 {
        lemma_sum_all_nonneg(s.drop_last());
    }
}

/// The assembled tree of a non-empty, well-formed active set is
/// well-formed, its weight is the total weight of the set, and its
/// leaves carry exactly the symbols of the set.
pub proof fn lemma_build_tree(s: Seq<TreeNode>)
    requires
        s.len() >= 1,
        all_wf(s),
        sum_weights(s) <= u32::MAX,
    ensures
        build_tree_spec(s).wf(),
        build_tree_spec(s).value == sum_weights(s),
        build_tree_spec(s).symbols() =~= all_symbols(s),
    decreases s.len(),
{
    if s.len() == 1 {
        assert(s.last() == s[0]);
        assert(s[0].wf());
        assert(sum_weights(s.drop_last()) == 0);
        assert(s.drop_last().len() == 0);
        assert(all_symbols(s.drop_last()) =~= Set::empty());
        assert(all_symbols(s) =~= Set::empty().union(s[0].symbols()));
    } else {
        lemma_merge_step(s);
        lemma_build_tree(merge_step(s));
    }
}

} // verus!
