//! Huffman trees: built by repeatedly merging the two lightest subtrees,
//! until one tree carries every character as a leaf.

use vstd::prelude::*;
use vstd::multiset::Multiset;
use vstd::seq_lib::lemma_multiset_commutative;
use crate::huffman::freq::{FreqTable, spec_get};

verus! {

broadcast use vstd::seq_lib::group_to_multiset_ensures, vstd::multiset::group_multiset_axioms;

/// A node of a Huffman tree: a leaf carrying a character and its weight,
/// or an internal node whose weight is the sum of its children's.
#[derive(Debug)]
pub enum HuffmanNode {
    Leaf { element: char, weight: u32 },
    Internal { weight: u32, left: Box<HuffmanNode>, right: Box<HuffmanNode> },
}

impl HuffmanNode {
    /// The stored weight.
    pub open spec fn spec_weight(&self) -> int {
        match self {
            HuffmanNode::Leaf { weight, .. } => *weight as int,
            HuffmanNode::Internal { weight, .. } => *weight as int,
        }
    }

    /// Every internal node's weight is the sum of its children's weights.
    pub open spec fn wf(&self) -> bool
        decreases self,
    {
        match self {
            HuffmanNode::Leaf { .. } => true,
            HuffmanNode::Internal { weight, left, right } => *weight as int == left.spec_weight()
                + right.spec_weight() && left.wf() && right.wf(),
        }
    }

    /// The characters at the leaves with their weights, left to right.
    pub open spec fn leaf_entries(&self) -> Seq<(char, u32)>
        decreases self,
    {
        match self {
            HuffmanNode::Leaf { element, weight } => seq![(*element, *weight)],
            HuffmanNode::Internal { left, right, .. } => left.leaf_entries() + right.leaf_entries(),
        }
    }

    /// A new leaf.
    pub fn newaf(element: char, weight: u32) -> (r: HuffmanNode)
        ensures
            r == (HuffmanNode::Leaf { element, weight }),
    {
        HuffmanNode::Leaf { element, weight }
    }

    /// A new internal node over two subtrees.
    pub fn new_internal(left: HuffmanNode, right: HuffmanNode, weight: u32) -> (r: HuffmanNode)
        ensures
            r matches HuffmanNode::Internal { weight: w, left: l, right: rt } && w == weight && *l
                == left && *rt == right,
    {
        HuffmanNode::Internal { weight, left: Box::new(left), right: Box::new(right) }
    }

    /// The stored weight.
    pub fn weight(&self) -> (r: u32)
        ensures
            r as int == self.spec_weight(),
    {
        match self {
            HuffmanNode::Leaf { weight, .. } => *weight,
            HuffmanNode::Internal { weight, .. } => *weight,
        }
    }

    /// A copy of the left subtree, if this is an internal node.
    pub fn left(&self) -> (r: Option<HuffmanNode>)
        ensures
            match self {
                HuffmanNode::Leaf { .. } => r is None,
                HuffmanNode::Internal { left, .. } => r == Some(**left),
            },
    {
        match self {
            HuffmanNode::Leaf { .. } => None,
            HuffmanNode::Internal { left, .. } => Some((**left).clone()),
        }
    }

    /// A copy of the right subtree, if this is an internal node.
    pub fn right(&self) -> (r: Option<HuffmanNode>)
        ensures
            match self {
                HuffmanNode::Leaf { .. } => r is None,
                HuffmanNode::Internal { right, .. } => r == Some(**right),
            },
    {
        match self {
            HuffmanNode::Leaf { .. } => None,
            HuffmanNode::Internal { right, .. } => Some((**right).clone()),
        }
    }

    /// The carried character, if this is a leaf.
    pub fn elem(&self) -> (r: Option<char>)
        ensures
            match self {
                HuffmanNode::Leaf { element, .. } => r == Some(*element),
                HuffmanNode::Internal { .. } => r is None,
            },
    {
        match self {
            HuffmanNode::Leaf { element, .. } => Some(*element),
            HuffmanNode::Internal { .. } => None,
        }
    }
}

impl Clone for HuffmanNode {
    /// A structurally equal copy.
    fn clone(&self) -> (r: HuffmanNode)
        ensures
            r == *self,
        decreases self,
    {
        match self {
            HuffmanNode::Leaf { element, weight } => HuffmanNode::Leaf {
                element: *element,
                weight: *weight,
            },
            HuffmanNode::Internal { weight, left, right } => HuffmanNode::Internal {
                weight: *weight,
                left: Box::new((**left).clone()),
                right: Box::new((**right).clone()),
            },
        }
    }
}

/// A Huffman tree: one node holding the whole hierarchy.
#[derive(Debug, Clone)]
pub struct HuffmanTree {
    pub root: HuffmanNode,
}

/// The total weight of the entries of a frequency table.
pub open spec fn spec_total(s: Seq<(char, u32)>) -> int
    decreases s.len(),
{
    if s.len() == 0 {
        0
    } else {
        s[0].1 + spec_total(s.drop_first())
    }
}

/// The leaf entries of every tree in a worklist, in order.
pub open spec fn work_leaves(s: Seq<HuffmanNode>) -> Seq<(char, u32)>
    decreases s.len(),
{
    if s.len() == 0 {
        Seq::empty()
    } else {
        s[0].leaf_entries() + work_leaves(s.drop_first())
    }
}

/// The total weight of a worklist.
pub open spec fn work_sum(s: Seq<HuffmanNode>) -> int
    decreases s.len(),
{
    if s.len() == 0 {
        0
    } else {
        s[0].spec_weight() + work_sum(s.drop_first())
    }
}

proof fn lemma_total_push(s: Seq<(char, u32)>, p: (char, u32))
    ensures
        spec_total(s.push(p)) == spec_total(s) + p.1,
    decreases s.len(),
{
    if s.len() == 0 {
        assert(s.push(p) =~= seq![p]);
        assert(seq![p].drop_first() =~= Seq::<(char, u32)>::empty());
        assert(spec_total(Seq::<(char, u32)>::empty()) == 0);
    } else {
        assert(s.push(p)[0] == s[0]);
        assert(s.push(p).drop_first() =~= s.drop_first().push(p));
        lemma_total_push(s.drop_first(), p);
    }
}

proof fn lemma_work_push(s: Seq<HuffmanNode>, n: HuffmanNode)
    ensures
        work_sum(s.push(n)) == work_sum(s) + n.spec_weight(),
        work_leaves(s.push(n)).to_multiset() == work_leaves(s).to_multiset().add(
            n.leaf_entries().to_multiset(),
        ),
    decreases s.len(),
{
    if s.len() == 0 {
        assert(s.push(n) =~= seq![n]);
        assert(seq![n].drop_first() =~= Seq::<HuffmanNode>::empty());
        assert(work_sum(Seq::<HuffmanNode>::empty()) == 0);
        assert(work_leaves(Seq::<HuffmanNode>::empty()) =~= Seq::<(char, u32)>::empty());
        assert(work_sum(s) == 0);
        assert(work_leaves(s) =~= Seq::<(char, u32)>::empty());
        assert(work_leaves(s.push(n)) =~= n.leaf_entries());
        assert(work_leaves(s.push(n)).to_multiset() =~= work_leaves(s).to_multiset().add(
            n.leaf_entries().to_multiset(),
        ));
    } else {
        assert(s.push(n).drop_first() =~= s.drop_first().push(n));
        assert(s.push(n)[0] == s[0]);
        lemma_work_push(s.drop_first(), n);
        lemma_multiset_commutative(s[0].leaf_entries(), work_leaves(s.drop_first().push(n)));
        lemma_multiset_commutative(s[0].leaf_entries(), work_leaves(s.drop_first()));
        assert(work_leaves(s.push(n)).to_multiset() =~= work_leaves(s).to_multiset().add(
            n.leaf_entries().to_multiset(),
        ));
    }
}

proof fn lemma_work_remove(s: Seq<HuffmanNode>, i: int)
    requires
        0 <= i < s.len(),
    ensures
        work_sum(s) == s[i].spec_weight() + work_sum(s.remove(i)),
        work_leaves(s).to_multiset() == s[i].leaf_entries().to_multiset().add(
            work_leaves(s.remove(i)).to_multiset(),
        ),
    decreases s.len(),
{
    if i == 0 {
        assert(s.remove(0) =~= s.drop_first());
        lemma_multiset_commutative(s[0].leaf_entries(), work_leaves(s.drop_first()));
    } else {
        lemma_work_remove(s.drop_first(), i - 1);
        assert(s.remove(i).drop_first() =~= s.drop_first().remove(i - 1));
        assert(s.remove(i)[0] == s[0]);
        assert(s.drop_first()[i - 1] == s[i]);
        lemma_multiset_commutative(s[0].leaf_entries(), work_leaves(s.drop_first()));
        lemma_multiset_commutative(s[0].leaf_entries(), work_leaves(s.remove(i).drop_first()));
        assert(work_leaves(s).to_multiset() =~= s[i].leaf_entries().to_multiset().add(
            work_leaves(s.remove(i)).to_multiset(),
        ));
    }
}

proof fn lemma_work_sum_nonneg(s: Seq<HuffmanNode>)
    ensures
        work_sum(s) >= 0,
    decreases s.len(),
{
    if s.len() > 0 {
        lemma_work_sum_nonneg(s.drop_first());
    }
}

/// A looked-up character is carried by some entry.
proof fn lemma_get_member(s: Seq<(char, u32)>, c: char)
    requires
        spec_get(s, c) is Some,
    ensures
        exists|k: int| 0 <= k < s.len() && (#[trigger] s[k]).0 == c,
    decreases s.len(),
{
    if s[0].0 == c {
    } else {
        lemma_get_member(s.drop_first(), c);
        let k0 = choose|k: int| 0 <= k < s.drop_first().len() && (#[trigger] s.drop_first()[k]).0
            == c;
        assert(s[k0 + 1].0 == c);
    }
}

/// Law: a tree whose leaves carry exactly a table's entries carries every
/// character of that table at some leaf; together with the code-map laws,
/// every character of the table that built a tree has a code word.
pub proof fn lemma_table_chars_at_leaves(root: HuffmanNode, entries: Seq<(char, u32)>, c: char)
    requires
        root.leaf_entries().to_multiset() == entries.to_multiset(),
        spec_get(entries, c) is Some,
    ensures
        exists|i: int|
            0 <= i < root.leaf_entries().len() && (#[trigger] root.leaf_entries()[i]).0 == c,
{
    lemma_get_member(entries, c);
    let k0 = choose|k: int| 0 <= k < entries.len() && (#[trigger] entries[k]).0 == c;
    assert(entries.contains(entries[k0]));
    assert(entries.to_multiset().count(entries[k0]) > 0);
    assert(root.leaf_entries().to_multiset().count(entries[k0]) > 0);
    assert(root.leaf_entries().contains(entries[k0]));
    let i0 = choose|i: int|
        0 <= i < root.leaf_entries().len() && #[trigger] root.leaf_entries()[i] == entries[k0];
    assert(root.leaf_entries()[i0].0 == c);
}

/// The index of a lightest tree of a non-empty worklist (the first such).
fn min_node_index(work: &Vec<HuffmanNode>) -> (r: usize)
    requires
        work@.len() >= 1,
    ensures
        r < work@.len(),
        forall|k: int|
            0 <= k < work@.len() ==> work@[r as int].spec_weight() <= (
            #[trigger] work@[k]).spec_weight(),
{
    let mut best: usize = 0;
    let mut k: usize = 1;
    while k < work.len()
        invariant
            best < k <= work@.len(),
            1 <= k,
            forall|m: int|
                0 <= m < k ==> work@[best as int].spec_weight() <= (
                #[trigger] work@[m]).spec_weight(),
        decreases work@.len() - k,
    {
        if work[k].weight() < work[best].weight() {
            best = k;
        }
        k = k + 1;
    }
    best
}

impl HuffmanTree {
    /// Builds the Huffman tree of a frequency table by repeatedly merging
    /// the two lightest subtrees (the lighter of the two becomes the left
    /// child). Returns `None` when the table has fewer than two distinct
    /// characters; otherwise the tree's leaves are exactly the table's
    /// entries and its weight is their total.
    #[verifier::loop_isolation(false)]
    pub fn build_huffman(freq: &FreqTable) -> (r: Option<HuffmanTree>)
        requires
            freq.wf(),
            spec_total(freq@) <= u32::MAX as int,
        ensures
            (r is None) <==> freq@.len() < 2,
            r matches Some(t) ==> t.root.wf() && t.root.leaf_entries().to_multiset()
                == freq@.to_multiset() && t.root.spec_weight() == spec_total(freq@),
    {
        if freq.len() < 2 {
            return None;
        }
        let pairs = freq.pairs();
        let mut work: Vec<HuffmanNode> = Vec::new();
        let mut k: usize = 0;
        proof {
            assert(freq@.subrange(0, 0) =~= Seq::<(char, u32)>::empty());
            assert(work_leaves(work@).to_multiset() =~= freq@.subrange(0, 0).to_multiset());
        }
        while k < pairs.len()
            invariant
                k <= freq@.len(),
                pairs@ == freq@,
                forall|m: int| 0 <= m < work@.len() ==> (#[trigger] work@[m]).wf(),
                work_leaves(work@).to_multiset() == freq@.subrange(0, k as int).to_multiset(),
                work_sum(work@) == spec_total(freq@.subrange(0, k as int)),
                work@.len() == k,
            decreases freq@.len() - k,
        {
            let e = pairs[k];
            let node = HuffmanNode::newaf(e.0, e.1);
            proof {
                lemma_work_push(work@, node);
                lemma_total_push(freq@.subrange(0, k as int), freq@[k as int]);
                assert(freq@.subrange(0, k + 1) =~= freq@.subrange(0, k as int).push(
                    freq@[k as int],
                ));
                assert(node.leaf_entries() =~= Seq::<(char, u32)>::empty().push(freq@[k as int]));
                assert(node.leaf_entries().to_multiset() =~= Multiset::<(char, u32)>::empty()
                    .insert(freq@[k as int]));
                assert(Seq::<(char, u32)>::empty().to_multiset() =~= Multiset::<(
                    char,
                    u32,
                )>::empty());
                assert(work_leaves(work@.push(node)).to_multiset() =~= freq@.subrange(
                    0,
                    k + 1,
                ).to_multiset());
            }
            work.push(node);
            k = k + 1;
        }
        proof {
            assert(freq@.subrange(0, freq@.len() as int) =~= freq@);
        }
        while work.len() > 1
            invariant
                work@.len() >= 1,
                forall|m: int| 0 <= m < work@.len() ==> (#[trigger] work@[m]).wf(),
                work_leaves(work@).to_multiset() == freq@.to_multiset(),
                work_sum(work@) == spec_total(freq@),
            decreases work@.len(),
        {
            let ghost w0 = work@;
            let i1 = min_node_index(&work);
            proof {
                lemma_work_remove(work@, i1 as int);
            }
            let left = work.remove(i1);
            let ghost w1 = work@;
            let i2 = min_node_index(&work);
            proof {
                lemma_work_remove(work@, i2 as int);
                lemma_work_sum_nonneg(work@.remove(i2 as int));
            }
            let right = work.remove(i2);
            proof {
                lemma_work_sum_nonneg(work@);
                assert(work_sum(w0) == left.spec_weight() + work_sum(w1));
                assert(work_sum(w1) == right.spec_weight() + work_sum(work@));
                assert(left.spec_weight() + right.spec_weight() <= spec_total(freq@));
            }
            let new_weight = right.weight() + left.weight();
            let node = HuffmanNode::new_internal(left, right, new_weight);
            proof {
                lemma_work_push(work@, node);
                lemma_multiset_commutative(left.leaf_entries(), right.leaf_entries());
                assert(work_leaves(work@.push(node)).to_multiset() =~= freq@.to_multiset());
                assert(forall|m: int|
                    0 <= m < work@.push(node).len() ==> (#[trigger] work@.push(node)[m]).wf());
            }
            work.push(node);
        }
        let ghost wfin = work@;
        let root = work.remove(0);
        proof {
            assert(work_leaves(wfin) == root.leaf_entries() + work_leaves(wfin.drop_first()));
            assert(root.leaf_entries() + work_leaves(wfin.drop_first()) =~= root.leaf_entries());
            assert(work_sum(wfin) == root.spec_weight() + work_sum(wfin.drop_first()));
        }
        Some(HuffmanTree { root })
    }
}

} // verus!
