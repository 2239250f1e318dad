//! The bit packer and unpacker: concatenating per-byte codes into a
//! dense bitstream of 8-bit groups (the final group zero-padded on the
//! low end), and walking the tree bit by bit to decode it again.

use vstd::prelude::*;
use vstd::arithmetic::div_mod::{lemma_div_denominator, lemma_fundamental_div_mod_converse};
use vstd::arithmetic::power2::{
    lemma2_to64, lemma_pow2_pos, lemma_pow2_strictly_increases, lemma_pow2_unfold, pow2,
};
use crate::code::{path_of, tree_code, CodeTable};
use crate::tree::TreeNode;

verus! {

/// An input byte had no entry in the code table: an internal
/// inconsistency between the frequency scan and the encode pass, not a
/// recoverable condition.
#[derive(Debug, PartialEq, Eq, Structural, Clone, Copy)]
pub struct EncodingError;

/// The numeric value of a bit string read most-significant-bit first.
pub open spec fn bits_val(s: Seq<bool>) -> nat
    decreases s.len(),
{
    if s.len() == 0 {
        0
    } else {
        bits_val(s.drop_last()) * 2 + (if s.last() {
            1nat
        } else {
            0nat
        })
    }
}

/// The `n` low bits of `x`, most significant first.
pub open spec fn bits_of(x: nat, n: nat) -> Seq<bool>
    decreases n,
{
    if n == 0 {
        Seq::empty()
    } else {
        bits_of(x / 2, (n - 1) as nat).push(x % 2 == 1)
    }
}

pub proof fn lemma_bits_of_len(x: nat, n: nat)
    ensures
        bits_of(x, n).len() == n,
    decreases n,
{
    if n > 0 {
        lemma_bits_of_len(x / 2, (n - 1) as nat);
    }
}

/// A run of `n` zero bits.
pub open spec fn zeros(n: nat) -> Seq<bool> {
    Seq::new(n, |i: int| false)
}

pub proof fn lemma_bits_val_bound(s: Seq<bool>)
    ensures
        bits_val(s) < pow2(s.len()),
    decreases s.len(),
{
    if s.len() == 0 {
        lemma2_to64();
    } else {
        lemma_bits_val_bound(s.drop_last());
        lemma_pow2_unfold(s.len());
    }
}

/// Reading the value of an 8-bit group back out bit by bit reproduces
/// the group: `bits_of` inverts `bits_val`.
pub proof fn lemma_val_bits(s: Seq<bool>)
    ensures
        bits_of(bits_val(s), s.len()) =~= s,
    decreases s.len(),
{
    if s.len() > 0 {
        let v = bits_val(s.drop_last());
        let b: nat = if s.last() {
            1
        } else {
            0
        };
        lemma_fundamental_div_mod_converse((v * 2 + b) as int, 2, v as int, b as int);
        lemma_val_bits(s.drop_last());
    }
}

/// Bit `i` of the `n`-bit group of `x`, counted from the most
/// significant end, is the parity of `x / pow2(n - 1 - i)`.
pub proof fn lemma_bits_of_index(x: nat, n: nat, i: int)
    requires
        0 <= i < n,
    ensures
        bits_of(x, n)[i] == ((x / pow2((n - 1 - i) as nat)) % 2 == 1),
    decreases n,
{
    lemma_bits_of_len(x, n);
    lemma_bits_of_len(x / 2, (n - 1) as nat);
    if i == n - 1 {
        lemma2_to64();
        assert(x / 1 == x);
    } else {
        lemma_bits_of_index(x / 2, (n - 1) as nat, i);
        let k = (n - 2 - i) as nat;
        lemma_pow2_pos(k);
        lemma_div_denominator(x as int, 2, pow2(k) as int);
        lemma_pow2_unfold((n - 1 - i) as nat);
        assert((x / 2) / pow2(k) == x / (2 * pow2(k)));
        assert(2 * pow2(k) == pow2((n - 1 - i) as nat));
    }
}

/// The bitstream held by a packed byte sequence: each byte contributes
/// its 8 bits, most significant first.
pub open spec fn unpack(bytes: Seq<u8>) -> Seq<bool>
    decreases bytes.len(),
{
    if bytes.len() == 0 {
        Seq::empty()
    } else {
        unpack(bytes.drop_last()) + bits_of(bytes.last() as nat, 8)
    }
}

/// The packed byte sequence of a bitstream: 8-bit groups, the final
/// group right-padded with 0 bits if it is short.
pub open spec fn pack(bits: Seq<bool>) -> Seq<u8>
    decreases bits.len(),
{
    if bits.len() == 0 {
        Seq::empty()
    } else if bits.len() < 8 {
        seq![bits_val(bits + zeros((8 - bits.len()) as nat)) as u8]
    } else {
        seq![bits_val(bits.take(8)) as u8] + pack(bits.skip(8))
    }
}

/// The number of padding bits `pack` appends to a bitstream.
pub open spec fn pad_len(n: nat) -> nat {
    ((8 - n % 8) % 8) as nat
}

proof fn lemma_unpack_concat(s1: Seq<u8>, s2: Seq<u8>)
    ensures
        unpack(s1 + s2) =~= unpack(s1) + unpack(s2),
    decreases s2.len(),
{
    if s2.len() == 0 {
        assert(s1 + s2 =~= s1);
    } else {
        assert((s1 + s2).drop_last() =~= s1 + s2.drop_last());
        lemma_unpack_concat(s1, s2.drop_last());
    }
}

/// Unpacking a packed bitstream gives back the bitstream followed by
/// its zero padding.
pub proof fn lemma_unpack_pack(bits: Seq<bool>)
    ensures
        unpack(pack(bits)) =~= bits + zeros(pad_len(bits.len())),
    decreases bits.len(),
{
    lemma2_to64();
    if bits.len() == 0 {
    } else if bits.len() < 8 {
        let chunk = bits + zeros((8 - bits.len()) as nat);
        lemma_bits_val_bound(chunk);
        lemma_val_bits(chunk);
        let v = bits_val(chunk) as u8;
        lemma_bits_of_len(v as nat, 8);
        assert(pack(bits) =~= seq![v]);
        assert(pack(bits).drop_last() =~= Seq::<u8>::empty());
        assert(pack(bits).last() == v);
        assert(unpack(Seq::<u8>::empty()) =~= Seq::<bool>::empty());
        assert(Seq::<bool>::empty() + bits_of(v as nat, 8) =~= bits_of(v as nat, 8));
        assert(unpack(pack(bits)) =~= bits_of(v as nat, 8));
        assert(bits_of(v as nat, 8) =~= chunk);
    } else {
        let head = bits.take(8);
        let tail = bits.skip(8);
        lemma_bits_val_bound(head);
        lemma_val_bits(head);
        let v = bits_val(head) as u8;
        lemma_bits_of_len(v as nat, 8);
        lemma_unpack_pack(tail);
        lemma_unpack_concat(seq![v], pack(tail));
        assert(pack(bits) =~= seq![v] + pack(tail));
        assert(seq![v].drop_last() =~= Seq::<u8>::empty());
        assert(seq![v].last() == v);
        assert(unpack(Seq::<u8>::empty()) =~= Seq::<bool>::empty());
        assert(Seq::<bool>::empty() + bits_of(v as nat, 8) =~= bits_of(v as nat, 8));
        assert(unpack(seq![v]) =~= bits_of(v as nat, 8));
        assert(bits_of(v as nat, 8) =~= head);
        assert(tail.len() % 8 == bits.len() % 8) by {
            assert(bits.len() == tail.len() + 8);
        }
        assert(unpack(pack(bits)) =~= head + (tail + zeros(pad_len(tail.len()))));
        assert(head + (tail + zeros(pad_len(bits.len()))) =~= bits + zeros(pad_len(bits.len())));
    }
}

/// Unpack a packed byte sequence into its bitstream.
pub fn unpack_bits(bytes: &[u8]) -> (out: Vec<bool>)
    ensures
        out@ =~= unpack(bytes@),
{
    let mut out: Vec<bool> = Vec::new();
    let mut i: usize = 0;
    while i < bytes.len()
        invariant
            i <= bytes@.len(),
            out@ =~= unpack(bytes@.take(i as int)),
        decreases bytes@.len() - i,
    {
        let x = bytes[i];
        let ghost pre = out@;
        let mut d: u8 = 128;
        let mut j: usize = 0;
        proof {
            lemma2_to64();
            lemma_bits_of_len(x as nat, 8);
        }
        while j < 8
            invariant
                j <= 8,
                out@.len() == pre.len() + j,
                forall|k: int| 0 <= k < pre.len() ==> out@[k] == pre[k],
                forall|k: int| 0 <= k < j ==> out@[pre.len() + k] == bits_of(x as nat, 8)[k],
                j < 8 ==> d as nat == pow2((7 - j) as nat),
            decreases 8 - j,
        {
            proof {
                lemma_pow2_pos((7 - j) as nat);
            }
            let bit = (x / d) % 2 == 1;
            proof {
                lemma_bits_of_index(x as nat, 8, j as int);
                lemma_bits_of_len(x as nat, 8);
            }
            out.push(bit);
            proof {
                if j < 7 {
                    lemma_pow2_unfold((7 - j) as nat);
                }
            }
            if j < 7 {
                d = d / 2;
            }
            j += 1;
        }
        proof {
            assert(bytes@.take(i + 1).drop_last() =~= bytes@.take(i as int));
            assert(bytes@.take(i + 1).last() == bytes@[i as int]);
            lemma_bits_of_len(x as nat, 8);
            assert forall|idx: int| 0 <= idx < out@.len() implies out@[idx] == (pre + bits_of(
                x as nat,
                8,
            ))[idx] by {
                if idx >= pre.len() {
                    assert(out@[pre.len() + (idx - pre.len())] == bits_of(x as nat, 8)[idx
                        - pre.len()]);
                }
            }
            assert(out@ =~= pre + bits_of(x as nat, 8));
        }
        i += 1;
    }
    proof {
        assert(bytes@.take(bytes@.len() as int) =~= bytes@);
    }
    out
}

/// The value of the 8-bit group starting at `pos` of `bits`, the group
/// right-padded with 0 bits where fewer than 8 bits remain.
fn group_val(bits: &Vec<bool>, pos: usize, n: usize) -> (r: u8)
    requires
        n <= 8,
        pos + n <= bits@.len(),
    ensures
        r as nat == bits_val(bits@.subrange(pos as int, pos + n) + zeros((8 - n) as nat)),
{
    let ghost chunk = bits@.subrange(pos as int, pos + n) + zeros((8 - n) as nat);
    let blen = bits.len();
    let mut acc: u8 = 0;
    let mut j: usize = 0;
    proof {
        lemma2_to64();
    }
    while j < 8
        invariant
            j <= 8,
            n <= 8,
            blen == bits@.len(),
            pos + n <= blen,
            chunk == bits@.subrange(pos as int, pos + n) + zeros((8 - n) as nat),
            acc as nat == bits_val(chunk.take(j as int)),
            (acc as nat) < pow2(j as nat),
        decreases 8 - j,
    {
        let bit = if j < n {
            bits[pos + j]
        } else {
            false
        };
        proof {
            lemma2_to64();
            if (j as nat) < 7 {
                lemma_pow2_strictly_increases(j as nat, 7);
            }
            assert(chunk.take(j + 1).drop_last() =~= chunk.take(j as int));
            assert(chunk.take(j + 1).last() == chunk[j as int]);
            assert(chunk[j as int] == bit);
            lemma_pow2_unfold((j + 1) as nat);
        }
        acc = acc * 2 + (if bit {
            1
        } else {
            0
        });
        j += 1;
    }
    proof {
        assert(chunk.take(8) =~= chunk);
    }
    acc
}

/// Pack a bitstream into bytes: 8-bit groups, the final group
/// right-padded with 0 bits.
pub fn pack_bits(bits: &Vec<bool>) -> (out: Vec<u8>)
    ensures
        out@ =~= pack(bits@),
{
    let mut out: Vec<u8> = Vec::new();
    let mut pos: usize = 0;
    proof {
        assert(bits@.skip(0) =~= bits@);
        assert(Seq::<u8>::empty() + pack(bits@) =~= pack(bits@));
    }
    while bits.len() - pos >= 8
        invariant
            pos <= bits@.len(),
            pack(bits@) =~= out@ + pack(bits@.skip(pos as int)),
        decreases bits@.len() - pos,
    {
        let v = group_val(bits, pos, 8);
        proof {
            let rest = bits@.skip(pos as int);
            assert(rest.take(8) =~= bits@.subrange(pos as int, pos + 8));
            assert(bits@.subrange(pos as int, pos + 8) + zeros(0) =~= rest.take(8));
            assert(rest.skip(8) =~= bits@.skip(pos + 8));
            assert(pack(rest) =~= seq![bits_val(rest.take(8)) as u8] + pack(rest.skip(8)));
        }
        out.push(v);
        pos += 8;
    }
    let rem = bits.len() - pos;
    if rem > 0 {
        let v = group_val(bits, pos, rem);
        proof {
            let rest = bits@.skip(pos as int);
            assert(rest =~= bits@.subrange(pos as int, pos + rem));
            assert(pack(rest) =~= seq![bits_val(rest + zeros((8 - rem) as nat)) as u8]);
        }
        out.push(v);
    } else {
        proof {
            assert(bits@.skip(pos as int) =~= Seq::<bool>::empty());
        }
    }
    proof {
        assert(out@ =~= pack(bits@));
    }
    out
}

/// Whether the code table has a code for every byte occurring in `data`.
pub open spec fn covered(ct: CodeTable, data: Seq<u8>) -> bool {
    forall|i: int| 0 <= i < data.len() ==> (#[trigger] ct.spec_code(data[i])) is Some
}

/// The code stored for `b`, or the empty bit string where none is.
pub open spec fn code_bits(ct: CodeTable, b: u8) -> Seq<bool> {
    match ct.spec_code(b) {
        Some(c) => c,
        None => Seq::empty(),
    }
}

/// The concatenation, in input order, of the stored codes of `data`.
pub open spec fn encode_bits(data: Seq<u8>, ct: CodeTable) -> Seq<bool>
    decreases data.len(),
{
    if data.len() == 0 {
        Seq::empty()
    } else {
        encode_bits(data.drop_last(), ct) + code_bits(ct, data.last())
    }
}

/// The concatenation, in input order, of the codes a tree assigns to
/// `data`.
pub open spec fn encoded_bits(data: Seq<u8>, t: TreeNode) -> Seq<bool>
    decreases data.len(),
{
    if data.len() == 0 {
        Seq::empty()
    } else {
        encoded_bits(data.drop_last(), t) + tree_code(t, data.last())
    }
}

/// Where the table stores exactly the tree's codes, encoding through the
/// table is encoding through the tree.
pub proof fn lemma_encode_bits_tree(data: Seq<u8>, ct: CodeTable, t: TreeNode)
    requires
        forall|i: int| 0 <= i < data.len() ==> (#[trigger] ct.spec_code(data[i])) == Some(
            tree_code(t, data[i]),
        ),
    ensures
        encode_bits(data, ct) =~= encoded_bits(data, t),
    decreases data.len(),
{
    if data.len() > 0 {
        assert(forall|i: int| 0 <= i < data.len() - 1 ==> data.drop_last()[i] == data[i]);
        lemma_encode_bits_tree(data.drop_last(), ct, t);
        assert(ct.spec_code(data.last()) == Some(tree_code(t, data.last())));
    }
}

/// Encode `data` against a code table: concatenate, in input order, the
/// code of every input byte and pack the bitstream into bytes.  Fails
/// with an `EncodingError` exactly when some input byte has no code.
pub fn encode_payload(data: &[u8], codes: &CodeTable) -> (r: Result<Vec<u8>, EncodingError>)
    requires
        codes.wf(),
    ensures
        match r {
            Ok(v) => covered(*codes, data@) && v@ == pack(encode_bits(data@, *codes)),
            Err(_) => !covered(*codes, data@),
        },
{
    let mut bits: Vec<bool> = Vec::new();
    let mut i: usize = 0;
    while i < data.len()
        invariant
            codes.wf(),
            i <= data@.len(),
            covered(*codes, data@.take(i as int)),
            bits@ =~= encode_bits(data@.take(i as int), *codes),
        decreases data@.len() - i,
    {
        let b = data[i];
        let ghost pre = bits@;
        match codes.get_code(b) {
            Some(code) => {
                let mut j: usize = 0;
                while j < code.len()
                    invariant
                        j <= code@.len(),
                        bits@ =~= pre + code@.take(j as int),
                    decreases code@.len() - j,
                {
                    proof {
                        assert(code@.take(j + 1).drop_last() =~= code@.take(j as int));
                        assert(code@.take(j + 1).last() == code@[j as int]);
                    }
                    bits.push(code[j]);
                    j += 1;
                }
                proof {
                    assert(code@.take(code@.len() as int) =~= code@);
                    assert(data@.take(i + 1).drop_last() =~= data@.take(i as int));
                    assert(data@.take(i + 1).last() == data@[i as int]);
                    assert(code_bits(*codes, b) == code@);
                    assert(bits@ =~= encode_bits(data@.take(i + 1), *codes));
                    assert forall|k: int| 0 <= k < i + 1 implies (#[trigger] codes.spec_code(
                        data@.take(i + 1)[k],
                    )) is Some by {
                        assert(data@.take(i + 1)[k] == data@[k]);
                        if k < i {
                            assert(codes.spec_code(data@.take(i as int)[k]) is Some);
                        }
                    }
                }
            },
            None => {
                proof {
                    assert(!covered(*codes, data@));
                }
                return Err(EncodingError);
            },
        }
        i += 1;
    }
    proof {
        assert(data@.take(data@.len() as int) =~= data@);
    }
    Ok(pack_bits(&bits))
}

/// Decode a bitstream against a tree, emitting at most `n` byte values:
/// each bit moves from the current internal node to its right child on 1
/// and its left child on 0; reaching a leaf emits its byte value and
/// resets the walk to the root.  The walk stops when `n` values have
/// been emitted or the bits run out.
pub open spec fn walk_bits(root: TreeNode, node: TreeNode, bits: Seq<bool>, n: nat) -> Seq<u8>
    recommends
        node is Internal,
    decreases bits.len(),
{
    if n == 0 || bits.len() == 0 {
        Seq::empty()
    } else {
        match node {
            TreeNode::Internal { left, right, .. } => {
                let next = if bits[0] {
                    *right
                } else {
                    *left
                };
                match next {
                    TreeNode::Leaf { byte, .. } => seq![byte] + walk_bits(
                        root,
                        root,
                        bits.drop_first(),
                        (n - 1) as nat,
                    ),
                    TreeNode::Internal { .. } => walk_bits(root, next, bits.drop_first(), n),
                }
            },
            TreeNode::Leaf { .. } => Seq::empty(),
        }
    }
}

/// Decode a bitstream against a tree, emitting at most `n` byte values.
/// A lone-leaf root consumes one bit per emitted value, mirroring the
/// one-bit code the generator assigns it.
pub open spec fn decode_bits(t: TreeNode, bits: Seq<bool>, n: nat) -> Seq<u8> {
    match t {
        TreeNode::Leaf { byte, .. } => Seq::new(
            if n <= bits.len() {
                n
            } else {
                bits.len()
            },
            |i: int| byte,
        ),
        TreeNode::Internal { .. } => walk_bits(t, t, bits, n),
    }
}

/// Following the stored path of a leaf from an internal node consumes
/// exactly that path, emits the leaf's byte value, and resets the walk.
pub proof fn lemma_walk_path(root: TreeNode, sub: TreeNode, b: u8, rest: Seq<bool>, n: nat)
    requires
        sub is Internal,
        sub.leaf_bytes().contains(b),
        n >= 1,
    ensures
        walk_bits(root, sub, path_of(sub, b) + rest, n) == seq![b] + walk_bits(
            root,
            root,
            rest,
            (n - 1) as nat,
        ),
    decreases sub,
{
    match sub {
        TreeNode::Internal { left, right, .. } => {
            let bits = path_of(sub, b) + rest;
            if right.leaf_bytes().contains(b) {
                assert(path_of(sub, b) == seq![true] + path_of(*right, b));
                assert(bits[0] == true);
                assert(bits.drop_first() =~= path_of(*right, b) + rest);
                match *right {
                    TreeNode::Leaf { byte, .. } => {
                        assert(right.leaf_bytes() =~= set![byte]);
                        assert(byte == b);
                        assert(path_of(*right, b) =~= Seq::<bool>::empty());
                        assert(bits.drop_first() =~= rest);
                    },
                    TreeNode::Internal { .. } => {
                        lemma_walk_path(root, *right, b, rest, n);
                    },
                }
            } else {
                assert(sub.leaf_bytes() == left.leaf_bytes() + right.leaf_bytes());
                assert(left.leaf_bytes().contains(b));
                assert(path_of(sub, b) == seq![false] + path_of(*left, b));
                assert(bits[0] == false);
                assert(bits.drop_first() =~= path_of(*left, b) + rest);
                match *left {
                    TreeNode::Leaf { byte, .. } => {
                        assert(left.leaf_bytes() =~= set![byte]);
                        assert(byte == b);
                        assert(path_of(*left, b) =~= Seq::<bool>::empty());
                        assert(bits.drop_first() =~= rest);
                    },
                    TreeNode::Internal { .. } => {
                        lemma_walk_path(root, *left, b, rest, n);
                    },
                }
            }
        },
        TreeNode::Leaf { .. } => {},
    }
}

/// Decoding the encoded bitstream of `data` (plus any trailing padding)
/// against the tree that encoded it, with `data`'s length as the value
/// budget, reproduces `data` exactly: the padding is never read as a
/// further value.
pub proof fn lemma_walk_encoded(t: TreeNode, data: Seq<u8>, pad: Seq<bool>)
    requires
        t is Internal,
        forall|i: int| 0 <= i < data.len() ==> t.leaf_bytes().contains(#[trigger] data[i]),
    ensures
        walk_bits(t, t, encoded_bits(data, t) + pad, data.len()) == data,
    decreases data.len(),
{
    if data.len() == 0 {
        assert(walk_bits(t, t, encoded_bits(data, t) + pad, 0) =~= Seq::<u8>::empty());
        assert(data =~= Seq::<u8>::empty());
    } else {
        let head = data[0];
        let rest = data.drop_first();
        lemma_encoded_bits_head(data, t);
        assert(encoded_bits(data, t) + pad =~= path_of(t, head) + (encoded_bits(rest, t) + pad));
        lemma_walk_path(t, t, head, encoded_bits(rest, t) + pad, data.len() as nat);
        assert(forall|i: int| 0 <= i < rest.len() ==> rest[i] == data[i + 1]);
        lemma_walk_encoded(t, rest, pad);
        assert(data =~= seq![head] + rest);
    }
}

/// The encoded bitstream starts with the first byte's code.
proof fn lemma_encoded_bits_head(data: Seq<u8>, t: TreeNode)
    requires
        data.len() > 0,
        t is Internal,
    ensures
        encoded_bits(data, t) =~= path_of(t, data[0]) + encoded_bits(data.drop_first(), t),
    decreases data.len(),
{
    if data.len() == 1 {
        assert(data.drop_last() =~= Seq::<u8>::empty());
        assert(data.drop_first() =~= Seq::<u8>::empty());
        assert(tree_code(t, data[0]) == path_of(t, data[0]));
        assert(data.last() == data[0]);
    } else {
        lemma_encoded_bits_head(data.drop_last(), t);
        assert(data.drop_last()[0] == data[0]);
        assert(data.drop_last().drop_first() =~= data.drop_first().drop_last());
        assert(data.drop_first().last() == data.last());
        assert(encoded_bits(data.drop_first(), t) == encoded_bits(data.drop_first().drop_last(), t)
            + tree_code(t, data.last()));
        assert(path_of(t, data[0]) + encoded_bits(data.drop_first(), t) =~= (path_of(t, data[0])
            + encoded_bits(data.drop_last().drop_first(), t)) + tree_code(t, data.last()));
    }
}

/// Decode a packed bitstream against a tree, emitting at most `count`
/// byte values: walk the tree bit by bit, emitting a value and resetting
/// to the root at every leaf, until the budget or the bits are spent.
pub fn decode_payload(packed: &[u8], root: &TreeNode, count: u64) -> (out: Vec<u8>)
    ensures
        out@ == decode_bits(*root, unpack(packed@), count as nat),
{
    let bits = unpack_bits(packed);
    match root {
        TreeNode::Leaf { byte, .. } => {
            let m: usize = if count <= bits.len() as u64 {
                count as usize
            } else {
                bits.len()
            };
            proof {
                assert(m as nat == if count as nat <= bits@.len() {
                    count as nat
                } else {
                    bits@.len()
                });
            }
            let mut out: Vec<u8> = Vec::new();
            let mut i: usize = 0;
            while i < m
                invariant
                    i <= m,
                    out@.len() == i,
                    forall|k: int| 0 <= k < i ==> out@[k] == *byte,
                decreases m - i,
            {
                out.push(*byte);
                i += 1;
            }
            proof {
                assert(out@ =~= decode_bits(*root, unpack(packed@), count as nat));
            }
            out
        },
        TreeNode::Internal { .. } => {
            let mut out: Vec<u8> = Vec::new();
            let mut node: &TreeNode = root;
            let mut emitted: u64 = 0;
            let mut i: usize = 0;
            proof {
                assert(bits@.skip(0) =~= bits@);
                assert(Seq::<u8>::empty() + walk_bits(*root, *root, bits@, count as nat)
                    =~= walk_bits(*root, *root, bits@, count as nat));
            }
            while i < bits.len() && emitted < count
                invariant
                    root is Internal,
                    node is Internal,
                    i <= bits@.len(),
                    emitted <= count,
                    out@.len() == emitted,
                    bits@ == unpack(packed@),
                    walk_bits(*root, *root, bits@, count as nat) == out@ + walk_bits(
                        *root,
                        *node,
                        bits@.skip(i as int),
                        (count - emitted) as nat,
                    ),
                decreases bits@.len() - i,
            {
                let bit = bits[i];
                let ghost prev_out = out@;
                let ghost prev_node = *node;
                let ghost rem = (count - emitted) as nat;
                proof {
                    assert(bits@.skip(i as int)[0] == bits@[i as int]);
                    assert(bits@.skip(i as int).drop_first() =~= bits@.skip(i + 1));
                    assert(bits@.skip(i as int).len() > 0);
                }
                match node {
                    TreeNode::Internal { left, right, .. } => {
                        let next: &TreeNode = if bit {
                            right
                        } else {
                            left
                        };
                        match next {
                            TreeNode::Leaf { byte, .. } => {
                                let ghost gb = *byte;
                                out.push(*byte);
                                emitted = emitted + 1;
                                node = root;
                                proof {
                                    assert(walk_bits(*root, prev_node, bits@.skip(i as int), rem)
                                        == seq![gb] + walk_bits(
                                        *root,
                                        *root,
                                        bits@.skip(i + 1),
                                        (rem - 1) as nat,
                                    ));
                                    assert(prev_out + (seq![gb] + walk_bits(
                                        *root,
                                        *root,
                                        bits@.skip(i + 1),
                                        (rem - 1) as nat,
                                    )) =~= out@ + walk_bits(
                                        *root,
                                        *root,
                                        bits@.skip(i + 1),
                                        (rem - 1) as nat,
                                    ));
                                }
                            },
                            TreeNode::Internal { .. } => {
                                node = next;
                                proof {
                                    assert(walk_bits(*root, prev_node, bits@.skip(i as int), rem)
                                        == walk_bits(*root, *node, bits@.skip(i + 1), rem));
                                }
                            },
                        }
                    },
                    TreeNode::Leaf { .. } => {
                        proof {
                            assert(false);
                        }
                    },
                }
                i += 1;
            }
            proof {
                if emitted == count {
                    assert(walk_bits(
                        *root,
                        *node,
                        bits@.skip(i as int),
                        (count - emitted) as nat,
                    ) =~= Seq::<u8>::empty());
                } else {
                    assert(i == bits@.len());
                    assert(bits@.skip(i as int) =~= Seq::<bool>::empty());
                }
                assert(out@ + Seq::<u8>::empty() =~= out@);
            }
            out
        },
    }
}

} // verus!
