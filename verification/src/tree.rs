//! The Huffman tree builder: a greedy minimum-frequency merge over a
//! worklist of nodes, with a fixed, fully deterministic tie-break rule.
//!
//! Determinism matters because the decoder rebuilds the tree from the
//! stored frequency table on its own: if two constructions over the same
//! table could disagree in shape when frequencies tie, decoding would be
//! silently corrupted.  The worklist starts with one leaf per present
//! byte value in ascending byte order, every merged node is appended at
//! the end, and each extraction takes the *first* node of minimal
//! frequency.  Ties between leaves therefore go to the lower byte value,
//! ties between internal nodes to the earlier creation, and ties between
//! a leaf and an internal node to the leaf.

use vstd::prelude::*;
use crate::freq::{support, table_wf, total, total_upto, FrequencyTable};

verus! {

/// Building a tree from an empty frequency table was attempted: no tree
/// is meaningful for zero symbols.
#[derive(Debug, PartialEq, Eq, Structural, Clone, Copy)]
pub struct TreeConstructionError;

/// A node of the prefix tree: a leaf holds a byte value and its
/// frequency; an internal node holds a frequency and exclusive ownership
/// of exactly two children, so the tree is full by construction.
pub enum TreeNode {
    Leaf { byte: u8, freq: u64 },
    Internal { freq: u64, left: Box<TreeNode>, right: Box<TreeNode> },
}

impl TreeNode {
    /// The frequency stored at the root of this subtree.
    pub open spec fn freq(self) -> u64 {
        match self {
            TreeNode::Leaf { freq, .. } => freq,
            TreeNode::Internal { freq, .. } => freq,
        }
    }

    /// The set of byte values held by the leaves of this subtree.
    pub open spec fn leaf_bytes(self) -> Set<u8>
        decreases self,
    {
        match self {
            TreeNode::Leaf { byte, .. } => set![byte],
            TreeNode::Internal { left, right, .. } => left.leaf_bytes() + right.leaf_bytes(),
        }
    }

    /// The frequency stored at the root of this subtree.
    pub fn frequency(&self) -> (f: u64)
        ensures
            f == self.freq(),
    {
        match self {
            TreeNode::Leaf { freq, .. } => *freq,
            TreeNode::Internal { freq, .. } => *freq,
        }
    }
}

/// Index of the first node of minimal frequency in a non-empty worklist.
pub open spec fn min_idx(s: Seq<TreeNode>) -> int
    decreases s.len(),
{
    if s.len() <= 1 {
        0
    } else {
        let rest = min_idx(s.drop_last());
        if s.last().freq() < s[rest].freq() {
            s.len() - 1
        } else {
            rest
        }
    }
}

pub proof fn lemma_min_idx(s: Seq<TreeNode>)
    requires
        s.len() >= 1,
    ensures
        0 <= min_idx(s) < s.len(),
        forall|i: int| 0 <= i < s.len() ==> s[min_idx(s)].freq() <= #[trigger] s[i].freq(),
    decreases s.len(),
{
    if s.len() > 1 {
        lemma_min_idx(s.drop_last());
        assert(forall|i: int| 0 <= i < s.len() - 1 ==> s.drop_last()[i] == s[i]);
    }
}

/// One step of the greedy algorithm: extract the two lowest-frequency
/// nodes (first-of-minimal twice) and append their merged parent.
pub open spec fn merge_step(s: Seq<TreeNode>) -> Seq<TreeNode>
    recommends
        s.len() >= 2,
{
    let a = s[min_idx(s)];
    let s1 = s.remove(min_idx(s));
    let b = s1[min_idx(s1)];
    let s2 = s1.remove(min_idx(s1));
    s2.push(
        TreeNode::Internal {
            freq: (a.freq() + b.freq()) as u64,
            left: Box::new(a),
            right: Box::new(b),
        },
    )
}

/// The tree left after merging a worklist down to a single node.
pub open spec fn combine(s: Seq<TreeNode>) -> TreeNode
    decreases s.len(),
        when s.len() >= 1
        via combine_decreases
{
    if s.len() <= 1 {
        s[0]
    } else {
        combine(merge_step(s))
    }
}

#[via_fn]
proof fn combine_decreases(s: Seq<TreeNode>) {
    if s.len() > 1 {
        lemma_merge_step_len(s);
    }
}

pub proof fn lemma_merge_step_len(s: Seq<TreeNode>)
    requires
        s.len() >= 2,
    ensures
        merge_step(s).len() == s.len() - 1,
{
    lemma_min_idx(s);
    lemma_min_idx(s.remove(min_idx(s)));
}

/// Leaves for the byte values below `n` that are present in `t`, in
/// ascending byte order.
pub open spec fn leaves_upto(t: Seq<u64>, n: int) -> Seq<TreeNode>
    decreases n,
{
    if n <= 0 {
        Seq::empty()
    } else {
        leaves_upto(t, n - 1) + (if t[n - 1] > 0 {
            seq![TreeNode::Leaf { byte: (n - 1) as u8, freq: t[n - 1] }]
        } else {
            Seq::<TreeNode>::empty()
        })
    }
}

/// The initial worklist of a table: one leaf per present byte value, in
/// ascending byte order.
pub open spec fn initial_leaves(t: Seq<u64>) -> Seq<TreeNode> {
    leaves_upto(t, 256)
}

/// The Huffman tree that a non-empty table determines.
pub open spec fn huffman_tree(t: Seq<u64>) -> TreeNode
    recommends
        !support(t).is_empty(),
{
    combine(initial_leaves(t))
}

/// The frequency bookkeeping of the data model: every internal node
/// carries exactly the sum of its children's frequencies.
pub open spec fn freq_consistent(t: TreeNode) -> bool
    decreases t,
{
    match t {
        TreeNode::Leaf { .. } => true,
        TreeNode::Internal { freq, left, right, .. } => freq == left.freq() + right.freq()
            && freq_consistent(*left) && freq_consistent(*right),
    }
}

/// Whether every node of a worklist keeps the frequency bookkeeping.
pub open spec fn all_freq_consistent(s: Seq<TreeNode>) -> bool {
    forall|i: int| 0 <= i < s.len() ==> freq_consistent(#[trigger] s[i])
}

/// Union of the leaf byte sets of all nodes in a worklist.
pub open spec fn all_leaf_bytes(s: Seq<TreeNode>) -> Set<u8>
    decreases s.len(),
{
    if s.len() == 0 {
        Set::empty()
    } else {
        all_leaf_bytes(s.drop_last()) + s.last().leaf_bytes()
    }
}

/// Sum of the root frequencies of all nodes in a worklist.
pub open spec fn sum_freqs(s: Seq<TreeNode>) -> int
    decreases s.len(),
{
    if s.len() == 0 {
        0
    } else {
        sum_freqs(s.drop_last()) + s.last().freq()
    }
}

proof fn lemma_sum_freqs_nonneg(s: Seq<TreeNode>)
    ensures
        sum_freqs(s) >= 0,
    decreases s.len(),
{
    if s.len() > 0 {
        lemma_sum_freqs_nonneg(s.drop_last());
    }
}

/// Removing one node takes exactly its contribution out of the worklist
/// aggregates.
proof fn lemma_remove(s: Seq<TreeNode>, i: int)
    requires
        0 <= i < s.len(),
    ensures
        sum_freqs(s.remove(i)) + s[i].freq() == sum_freqs(s),
        all_leaf_bytes(s.remove(i)) + s[i].leaf_bytes() =~= all_leaf_bytes(s),
    decreases s.len(),
{
    if i == s.len() - 1 {
        assert(s.remove(i) =~= s.drop_last());
    } else {
        assert(s.remove(i).drop_last() =~= s.drop_last().remove(i));
        assert(s.remove(i).last() == s.last());
        lemma_remove(s.drop_last(), i);
    }
}

proof fn lemma_push(s: Seq<TreeNode>, x: TreeNode)
    ensures
        sum_freqs(s.push(x)) == sum_freqs(s) + x.freq(),
        all_leaf_bytes(s.push(x)) =~= all_leaf_bytes(s) + x.leaf_bytes(),
{
    assert(s.push(x).drop_last() =~= s);
    assert(s.push(x).last() == x);
}

/// A merge step keeps the worklist's leaf byte set and frequency sum, and
/// shortens it by one node.
pub proof fn lemma_merge_step(s: Seq<TreeNode>)
    requires
        s.len() >= 2,
        sum_freqs(s) <= u64::MAX,
    ensures
        merge_step(s).len() == s.len() - 1,
        sum_freqs(merge_step(s)) == sum_freqs(s),
        all_leaf_bytes(merge_step(s)) =~= all_leaf_bytes(s),
        all_freq_consistent(s) ==> all_freq_consistent(merge_step(s)),
{
    let i = min_idx(s);
    lemma_min_idx(s);
    let a = s[i];
    let s1 = s.remove(i);
    let j = min_idx(s1);
    lemma_min_idx(s1);
    let b = s1[j];
    let s2 = s1.remove(j);
    lemma_remove(s, i);
    lemma_remove(s1, j);
    lemma_sum_freqs_nonneg(s2);
    let merged = TreeNode::Internal {
        freq: (a.freq() + b.freq()) as u64,
        left: Box::new(a),
        right: Box::new(b),
    };
    assert(a.freq() + b.freq() <= u64::MAX);
    lemma_push(s2, merged);
    assert(merged.leaf_bytes() =~= a.leaf_bytes() + b.leaf_bytes());
    if all_freq_consistent(s) {
        assert forall|x: int| 0 <= x < merge_step(s).len() implies freq_consistent(
            #[trigger] merge_step(s)[x],
        ) by {
            if x < s2.len() {
                let y = if x < j {
                    x
                } else {
                    x + 1
                };
                assert(s2[x] == s1[y]);
                let z = if y < i {
                    y
                } else {
                    y + 1
                };
                assert(s1[y] == s[z]);
                assert(freq_consistent(s[z]));
            } else {
                assert(merge_step(s)[x] == merged);
                assert(freq_consistent(s[i]) && freq_consistent(s1[j]));
            }
        }
    }
}

/// Merging a worklist to one tree keeps the leaf byte set.
pub proof fn lemma_combine_leaves(s: Seq<TreeNode>)
    requires
        s.len() >= 1,
        sum_freqs(s) <= u64::MAX,
    ensures
        combine(s).leaf_bytes() =~= all_leaf_bytes(s),
        all_freq_consistent(s) ==> freq_consistent(combine(s)),
    decreases s.len(),
{
    if s.len() == 1 {
        assert(s.drop_last() =~= Seq::<TreeNode>::empty());
        assert(all_leaf_bytes(s.drop_last()) =~= Set::<u8>::empty());
        assert(s.last() == s[0]);
        assert(all_leaf_bytes(s) =~= Set::<u8>::empty() + s[0].leaf_bytes());
        assert(all_leaf_bytes(s) =~= s[0].leaf_bytes());
    } else {
        lemma_merge_step(s);
        lemma_combine_leaves(merge_step(s));
    }
}

/// The initial worklist of a table holds exactly the present byte values
/// and their total count.
pub proof fn lemma_leaves_upto(t: Seq<u64>, n: int)
    requires
        0 <= n <= 256,
    ensures
        all_leaf_bytes(leaves_upto(t, n)) =~= Set::new(|b: u8| (b as int) < n && t[b as int] > 0),
        sum_freqs(leaves_upto(t, n)) == total_upto(t, n),
        leaves_upto(t, n).len() == 0 <==> (forall|b: int| 0 <= b < n ==> t[b] == 0),
        all_freq_consistent(leaves_upto(t, n)),
    decreases n,
{
    if n > 0 {
        lemma_leaves_upto(t, n - 1);
        let prev = leaves_upto(t, n - 1);
        if t[n - 1] > 0 {
            let leaf = TreeNode::Leaf { byte: (n - 1) as u8, freq: t[n - 1] };
            assert(leaves_upto(t, n) =~= prev.push(leaf));
            lemma_push(prev, leaf);
            assert forall|x: int| 0 <= x < leaves_upto(t, n).len() implies freq_consistent(
                #[trigger] leaves_upto(t, n)[x],
            ) by {
                if x < prev.len() {
                    assert(leaves_upto(t, n)[x] == prev[x]);
                } else {
                    assert(leaves_upto(t, n)[x] == leaf);
                }
            }
        } else {
            assert(leaves_upto(t, n) =~= prev);
        }
    }
}

/// The leaves of the tree a table determines are exactly the table's
/// present byte values.
pub proof fn lemma_tree_leaves(t: Seq<u64>)
    requires
        table_wf(t),
        !support(t).is_empty(),
        total(t) <= u64::MAX,
    ensures
        huffman_tree(t).leaf_bytes() =~= support(t),
{
    lemma_leaves_upto(t, 256);
    lemma_total_upto_nonneg_prefix(t);
    let init = initial_leaves(t);
    if init.len() == 0 {
        let b = support(t).choose();
        assert(support(t).contains(b));
        assert(false);
    }
    lemma_combine_leaves(init);
    assert(all_leaf_bytes(init) =~= support(t));
}

proof fn lemma_total_upto_nonneg_prefix(t: Seq<u64>)
    ensures
        sum_freqs(leaves_upto(t, 256)) == total(t),
{
    lemma_leaves_upto(t, 256);
}

/// The built tree keeps the data model's frequency bookkeeping: every
/// internal node carries exactly the sum of its two children's
/// frequencies, down to the leaves' own counts.
pub proof fn lemma_tree_frequencies(t: Seq<u64>)
    requires
        table_wf(t),
        !support(t).is_empty(),
        total(t) <= u64::MAX,
    ensures
        freq_consistent(huffman_tree(t)),
{
    lemma_leaves_upto(t, 256);
    let init = initial_leaves(t);
    if init.len() == 0 {
        let b = support(t).choose();
        assert(support(t).contains(b));
        assert(false);
    }
    lemma_combine_leaves(init);
}

/// Two independent constructions over the same frequency table produce
/// structurally identical trees.  The tree a table determines is a pure
/// function of the table's counts, so together with the builder's
/// contract (its result equals `huffman_tree` of its input) any two runs
/// over equal tables — the encoder's and the decoder's — agree in shape,
/// tied frequencies included.
pub proof fn lemma_tree_determinism(t1: Seq<u64>, t2: Seq<u64>)
    requires
        t1 == t2,
    ensures
        huffman_tree(t1) == huffman_tree(t2),
{
}

/// Index of the first node of minimal frequency in a non-empty worklist.
fn find_min(nodes: &Vec<TreeNode>) -> (r: usize)
    requires
        nodes@.len() >= 1,
    ensures
        r == min_idx(nodes@),
{
    let mut best: usize = 0;
    let mut i: usize = 1;
    while i < nodes.len()
        invariant
            1 <= i <= nodes@.len(),
            best == min_idx(nodes@.take(i as int)),
            best < i,
        decreases nodes@.len() - i,
    {
        proof {
            assert(nodes@.take(i + 1).drop_last() =~= nodes@.take(i as int));
            assert(nodes@.take(i + 1).last() == nodes@[i as int]);
            lemma_min_idx(nodes@.take(i as int));
        }
        if nodes[i].frequency() < nodes[best].frequency() {
            best = i;
        }
        i += 1;
    }
    proof {
        assert(nodes@.take(nodes@.len() as int) =~= nodes@);
    }
    best
}

/// Build the Huffman tree of a frequency table: one leaf per present
/// byte value, then greedy merging of the two lowest-frequency nodes
/// until a single root remains.
///
/// The result is pinned to `huffman_tree(table@)`, a pure function of
/// the counts, so encoder and decoder always rebuild the same shape.
/// An empty table yields a `TreeConstructionError`: no tree is
/// meaningful for zero symbols.
pub fn build_huffman_tree(table: &FrequencyTable) -> (r: Result<TreeNode, TreeConstructionError>)
    requires
        table.wf(),
        total(table@) <= u64::MAX,
    ensures
        r is Err <==> support(table@).is_empty(),
        r is Ok ==> r == Ok::<TreeNode, TreeConstructionError>(huffman_tree(table@)),
{
    let mut nodes: Vec<TreeNode> = Vec::new();
    let mut b: usize = 0;
    while b < 256
        invariant
            table.wf(),
            b <= 256,
            nodes@ == leaves_upto(table@, b as int),
        decreases 256 - b,
    {
        let c = table.get(b as u8);
        if c > 0 {
            nodes.push(TreeNode::Leaf { byte: b as u8, freq: c });
            proof {
                assert(nodes@ =~= leaves_upto(table@, b as int).push(
                    TreeNode::Leaf { byte: b as u8, freq: table@[b as int] },
                ));
                assert(nodes@ =~= leaves_upto(table@, b + 1));
            }
        } else {
            proof {
                assert(nodes@ =~= leaves_upto(table@, b + 1));
            }
        }
        b += 1;
    }
    proof {
        lemma_leaves_upto(table@, 256);
    }
    if nodes.len() == 0 {
        proof {
            assert forall|x: u8| !support(table@).contains(x) by {
                assert(table@[x as int] == 0);
            }
            assert(support(table@) =~= Set::<u8>::empty());
        }
        return Err(TreeConstructionError);
    }
    let ghost init = nodes@;
    while nodes.len() > 1
        invariant
            nodes@.len() >= 1,
            sum_freqs(nodes@) == sum_freqs(init),
            sum_freqs(init) <= u64::MAX,
            combine(nodes@) == combine(init),
        decreases nodes@.len(),
    {
        let ghost pre = nodes@;
        let i = find_min(&nodes);
        proof {
            lemma_min_idx(pre);
        }
        let a = nodes.remove(i);
        let j = find_min(&nodes);
        proof {
            lemma_min_idx(nodes@);
            lemma_remove(pre, i as int);
            lemma_remove(pre.remove(i as int), j as int);
            lemma_sum_freqs_nonneg(pre.remove(i as int).remove(j as int));
        }
        let b2 = nodes.remove(j);
        let f = a.frequency() + b2.frequency();
        nodes.push(TreeNode::Internal { freq: f, left: Box::new(a), right: Box::new(b2) });
        proof {
            assert(nodes@ =~= merge_step(pre));
            lemma_merge_step(pre);
            assert(combine(pre) == combine(merge_step(pre)));
        }
    }
    let root = match nodes.pop() {
        Some(r) => r,
        None => {
            proof {
                assert(false);
            }
            return Err(TreeConstructionError);
        },
    };
    proof {
        assert(combine(init) == root);
        assert(!support(table@).is_empty()) by {
            let k = init.len();
            assert(init[k - 1].leaf_bytes().subset_of(all_leaf_bytes(init))) by {
                lemma_remove(init, k - 1);
            }
            lemma_leaf_bytes_nonempty(init[k - 1]);
            let x = init[k - 1].leaf_bytes().choose();
            assert(all_leaf_bytes(init).contains(x));
            assert(support(table@).contains(x));
        }
    }
    Ok(root)
}

proof fn lemma_leaf_bytes_nonempty(t: TreeNode)
    ensures
        exists|b: u8| t.leaf_bytes().contains(b),
    decreases t,
{
    match t {
        TreeNode::Leaf { byte, .. } => {
            assert(t.leaf_bytes().contains(byte));
        },
        TreeNode::Internal { left, right, .. } => {
            lemma_leaf_bytes_nonempty(*left);
            let b = choose|b: u8| left.leaf_bytes().contains(b);
            assert(t.leaf_bytes().contains(b));
        },
    }
}

} // verus!
