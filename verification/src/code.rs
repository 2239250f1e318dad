//! The code generator: walking the tree depth-first and assigning every
//! leaf the bit string of its root-to-leaf path (left = 0, right = 1).
//! A table whose tree is a lone leaf gets the one-bit code `0`, since an
//! empty code could not be packed or distinguished in the bitstream.

use vstd::prelude::*;
use vstd::pervasive::VecAdditionalExecFns;
use crate::tree::TreeNode;

verus! {

/// The root-to-leaf path of byte value `b` in `t`: 0 for a left edge, 1
/// for a right edge.  Where `b` hangs under both children (which cannot
/// happen in a tree built from a table), the right path is meant.
pub open spec fn path_of(t: TreeNode, b: u8) -> Seq<bool>
    recommends
        t.leaf_bytes().contains(b),
    decreases t,
{
    match t {
        TreeNode::Leaf { .. } => Seq::empty(),
        TreeNode::Internal { left, right, .. } => {
            if right.leaf_bytes().contains(b) {
                seq![true] + path_of(*right, b)
            } else {
                seq![false] + path_of(*left, b)
            }
        },
    }
}

/// The code a tree assigns to byte value `b`: its root-to-leaf path,
/// except that the root itself being the leaf gets the one-bit code `0`.
pub open spec fn tree_code(t: TreeNode, b: u8) -> Seq<bool>
    recommends
        t.leaf_bytes().contains(b),
{
    if t is Leaf {
        seq![false]
    } else {
        path_of(t, b)
    }
}

/// A mapping from byte value to a non-empty bit string.  The set of
/// stored codes is prefix-free when the table was generated from a tree
/// (`lemma_codes_prefix_free`).
pub struct CodeTable {
    codes: Vec<Option<Vec<bool>>>,
}

impl CodeTable {
    pub closed spec fn wf(self) -> bool {
        self.codes@.len() == 256
    }

    /// The code stored for byte value `b`, if any.
    pub closed spec fn spec_code(self, b: u8) -> Option<Seq<bool>> {
        match self.codes@[b as int] {
            Some(v) => Some(v@),
            None => None,
        }
    }

    /// A fresh table with no code stored.
    pub fn new() -> (ct: CodeTable)
        ensures
            ct.wf(),
            forall|b: u8| ct.spec_code(b) is None,
    {
        let mut codes: Vec<Option<Vec<bool>>> = Vec::new();
        let mut i: usize = 0;
        while i < 256
            invariant
                i <= 256,
                codes@.len() == i,
                forall|j: int| 0 <= j < i ==> codes@[j] is None,
            decreases 256 - i,
        {
            codes.push(None);
            i += 1;
        }
        CodeTable { codes }
    }

    /// Store `code` as the code of byte value `b`.
    pub fn set_code(&mut self, b: u8, code: Vec<bool>)
        requires
            old(self).wf(),
        ensures
            final(self).wf(),
            final(self).spec_code(b) == Some(code@),
            forall|x: u8| x != b ==> final(self).spec_code(x) == old(self).spec_code(x),
    {
        self.codes.set(b as usize, Some(code));
    }

    /// The code stored for byte value `b`, if any.
    pub fn get_code(&self, b: u8) -> (r: Option<&Vec<bool>>)
        requires
            self.wf(),
        ensures
            match r {
                Some(v) => self.spec_code(b) == Some(v@),
                None => self.spec_code(b) is None,
            },
    {
        match &self.codes[b as usize] {
            Some(v) => Some(v),
            None => None,
        }
    }
}

/// Walk the tree depth-first and return the table that assigns every
/// leaf's byte value its root-to-leaf path, the lone-leaf root getting
/// the one-bit code `0`.  Byte values without a leaf get no code.
pub fn generate_codes(root: &TreeNode) -> (ct: CodeTable)
    ensures
        ct.wf(),
        forall|b: u8| #[trigger]
            ct.spec_code(b) == if root.leaf_bytes().contains(b) {
                Some(tree_code(*root, b))
            } else {
                None::<Seq<bool>>
            },
{
    let mut ct = CodeTable::new();
    match root {
        TreeNode::Leaf { byte, .. } => {
            let mut code: Vec<bool> = Vec::new();
            code.push(false);
            proof {
                assert(code@ =~= seq![false]);
            }
            ct.set_code(*byte, code);
        },
        TreeNode::Internal { .. } => {
            let prefix: Vec<bool> = Vec::new();
            proof {
                assert(prefix@ =~= Seq::<bool>::empty());
            }
            assign_codes(root, prefix, &mut ct);
            proof {
                assert forall|b: u8| root.leaf_bytes().contains(b) implies ct.spec_code(b)
                    == Some(tree_code(*root, b)) by {
                    assert(Seq::<bool>::empty() + path_of(*root, b) =~= path_of(*root, b));
                }
            }
        },
    }
    ct
}

/// Depth-first code assignment below `node`, whose own root-to-leaf path
/// is `prefix`.
fn assign_codes(node: &TreeNode, prefix: Vec<bool>, ct: &mut CodeTable)
    requires
        old(ct).wf(),
    ensures
        final(ct).wf(),
        forall|b: u8| #[trigger]
            final(ct).spec_code(b) == if node.leaf_bytes().contains(b) {
                Some(prefix@ + path_of(*node, b))
            } else {
                old(ct).spec_code(b)
            },
    decreases *node,
{
    match node {
        TreeNode::Leaf { byte, .. } => {
            let ghost p = prefix@;
            ct.set_code(*byte, prefix);
            proof {
                assert(p + path_of(*node, *byte) =~= p);
            }
        },
        TreeNode::Internal { left, right, .. } => {
            let ghost pre = prefix@;
            let mut p0 = prefix.clone();
            proof {
                assert(p0@ =~= pre);
            }
            p0.push(false);
            assign_codes(left, p0, ct);
            let ghost mid = *ct;
            let mut p1 = prefix;
            p1.push(true);
            assign_codes(right, p1, ct);
            proof {
                assert forall|b: u8| #[trigger]
                    ct.spec_code(b) == if node.leaf_bytes().contains(b) {
                        Some(pre + path_of(*node, b))
                    } else {
                        old(ct).spec_code(b)
                    } by {
                    if right.leaf_bytes().contains(b) {
                        assert(ct.spec_code(b) == Some(p1@ + path_of(**right, b)));
                        assert(p1@ =~= pre + seq![true]);
                        assert(p1@ + path_of(**right, b) =~= pre + (seq![true] + path_of(
                            **right,
                            b,
                        )));
                        assert(node.leaf_bytes().contains(b));
                    } else if left.leaf_bytes().contains(b) {
                        assert(ct.spec_code(b) == mid.spec_code(b));
                        assert(mid.spec_code(b) == Some(p0@ + path_of(**left, b)));
                        assert(p0@ =~= pre + seq![false]);
                        assert(p0@ + path_of(**left, b) =~= pre + (seq![false] + path_of(
                            **left,
                            b,
                        )));
                        assert(node.leaf_bytes().contains(b));
                    } else {
                        assert(!node.leaf_bytes().contains(b));
                        assert(ct.spec_code(b) == mid.spec_code(b));
                        assert(mid.spec_code(b) == old(ct).spec_code(b));
                    }
                }
            }
        },
    }
}

/// No bit string is a prefix of itself-extended differently: for two
/// distinct byte values held by leaves of one tree, neither one's code is
/// a prefix of the other's.  Together with `generate_codes` this makes
/// the generated code table prefix-free, and the tree-leaf lemma of the
/// builder makes its domain exactly the table's present byte values.
pub proof fn lemma_codes_prefix_free(t: TreeNode, b1: u8, b2: u8)
    requires
        t.leaf_bytes().contains(b1),
        t.leaf_bytes().contains(b2),
        b1 != b2,
    ensures
        !tree_code(t, b1).is_prefix_of(tree_code(t, b2)),
    decreases t,
{
    match t {
        TreeNode::Leaf { byte, .. } => {
            assert(t.leaf_bytes() =~= set![byte]);
            assert(false);
        },
        TreeNode::Internal { .. } => {
            lemma_paths_prefix_free(t, b1, b2);
        },
    }
}

proof fn lemma_paths_prefix_free(t: TreeNode, b1: u8, b2: u8)
    requires
        t.leaf_bytes().contains(b1),
        t.leaf_bytes().contains(b2),
        b1 != b2,
        t is Internal,
    ensures
        !path_of(t, b1).is_prefix_of(path_of(t, b2)),
    decreases t,
{
    match t {
        TreeNode::Internal { left, right, .. } => {
            let c1 = path_of(t, b1);
            let c2 = path_of(t, b2);
            if right.leaf_bytes().contains(b1) && right.leaf_bytes().contains(b2) {
                match *right {
                    TreeNode::Leaf { byte, .. } => {
                        assert(right.leaf_bytes() =~= set![byte]);
                        assert(false);
                    },
                    TreeNode::Internal { .. } => {
                        lemma_paths_prefix_free(*right, b1, b2);
                        lemma_cons_prefix(true, path_of(*right, b1), path_of(*right, b2));
                    },
                }
            } else if !right.leaf_bytes().contains(b1) && !right.leaf_bytes().contains(b2) {
                match *left {
                    TreeNode::Leaf { byte, .. } => {
                        assert(left.leaf_bytes() =~= set![byte]);
                        assert(false);
                    },
                    TreeNode::Internal { .. } => {
                        lemma_paths_prefix_free(*left, b1, b2);
                        lemma_cons_prefix(false, path_of(*left, b1), path_of(*left, b2));
                    },
                }
            } else {
                assert(c1[0] != c2[0]);
                if c1.is_prefix_of(c2) {
                    assert(c1[0] == c2.subrange(0, c1.len() as int)[0]);
                    assert(false);
                }
            }
        },
        TreeNode::Leaf { .. } => {
            assert(false);
        },
    }
}

proof fn lemma_cons_prefix(x: bool, a: Seq<bool>, b: Seq<bool>)
    ensures
        (seq![x] + a).is_prefix_of(seq![x] + b) <==> a.is_prefix_of(b),
{
    let ca = seq![x] + a;
    let cb = seq![x] + b;
    if ca.is_prefix_of(cb) {
        assert(ca == cb.subrange(0, ca.len() as int));
        assert forall|i: int| 0 <= i < a.len() implies a[i] == b.subrange(0, a.len() as int)[i] by {
            assert(ca[i + 1] == cb.subrange(0, ca.len() as int)[i + 1]);
        }
        assert(a =~= b.subrange(0, a.len() as int));
    }
    if a.is_prefix_of(b) {
        assert(a == b.subrange(0, a.len() as int));
        assert forall|i: int| 0 <= i < ca.len() implies ca[i] == cb.subrange(
            0,
            ca.len() as int,
        )[i] by {
            if i > 0 {
                assert(a[i - 1] == b.subrange(0, a.len() as int)[i - 1]);
            }
        }
        assert(ca =~= cb.subrange(0, ca.len() as int));
    }
}

} // verus!
