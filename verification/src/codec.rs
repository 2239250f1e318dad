//! The encode and decode pipelines, and the round-trip law that ties
//! them together: decoding an encoded byte sequence reproduces it
//! exactly.
//!
//! The stored table's counts sum to the input's length, so the decoder
//! knows exactly how many values to emit and never mistakes the final
//! byte's zero padding for payload.

use vstd::prelude::*;
use vstd::pervasive::unreached;
use crate::bits::{
    decode_bits, decode_payload, encode_payload, encoded_bits, lemma_encode_bits_tree,
    lemma_unpack_pack, lemma_walk_encoded, pack, pad_len, unpack, zeros,
};
use crate::code::{generate_codes, tree_code};
use crate::freq::{
    calculate_frequency, lemma_occ_le_len, lemma_occ_positive, lemma_total_of_table,
    lemma_total_upto_grows, occ, support, table_of, table_wf, total, total_upto,
};
use crate::header::{
    lemma_header_round_trip, read_header, spec_header, spec_parse_header, write_header, FormatError,
};
use crate::tree::{build_huffman_tree, huffman_tree, lemma_tree_leaves, TreeNode};

verus! {

/// The serialized encoding of a byte sequence: its frequency header,
/// then the packed bitstream of its per-byte codes.  An empty input
/// serializes to the bare header, whose table has no entries.
pub open spec fn spec_encode(data: Seq<u8>) -> Seq<u8> {
    spec_header(table_of(data)) + pack(encoded_bits(data, huffman_tree(table_of(data))))
}

/// The decode of a serialized byte sequence: parse the header, rebuild
/// the tree, and walk the payload's bits, emitting as many values as the
/// table's counts sum to.  An empty table decodes to the empty sequence;
/// a malformed header, or one whose counts sum beyond any representable
/// input length, decodes to nothing.
pub open spec fn spec_decode(bytes: Seq<u8>) -> Option<Seq<u8>> {
    match spec_parse_header(bytes) {
        None => None,
        Some((t, used)) => {
            if support(t).is_empty() {
                Some(Seq::empty())
            } else if total(t) > u64::MAX {
                None
            } else {
                Some(decode_bits(huffman_tree(t), unpack(bytes.skip(used)), total(t) as nat))
            }
        },
    }
}

/// A sequence is empty exactly when its table has no entries.
proof fn lemma_support_of_data(data: Seq<u8>)
    requires
        data.len() <= u64::MAX,
    ensures
        support(table_of(data)).is_empty() <==> data.len() == 0,
{
    if data.len() > 0 {
        lemma_occ_positive(data, data.len() - 1);
        lemma_occ_le_len(data, data.last());
        assert(table_of(data)[data.last() as int] == occ(data, data.last()) as u64);
        assert(support(table_of(data)).contains(data.last()));
        assert(!support(table_of(data)).is_empty());
    } else {
        assert forall|b: u8| !support(table_of(data)).contains(b) by {
            assert(table_of(data)[b as int] == occ(data, b) as u64);
        }
        assert(support(table_of(data)) =~= Set::<u8>::empty());
    }
}

/// Encode a byte sequence: count its frequencies, build the tree and the
/// code table, and emit the header followed by the packed payload.  The
/// code table covers every input byte by construction, so encoding never
/// fails; an empty input yields the bare header.
pub fn encode_bytes(data: &[u8]) -> (out: Vec<u8>)
    ensures
        out@ == spec_encode(data@),
{
    let n = data.len();
    let table = calculate_frequency(data);
    proof {
        assert(n as nat == data@.len());
        lemma_total_of_table(data@);
        lemma_support_of_data(data@);
    }
    let mut out = write_header(&table);
    let tree = match build_huffman_tree(&table) {
        Ok(tr) => tr,
        Err(_) => {
            proof {
                assert(data@.len() == 0);
                assert(encoded_bits(data@, huffman_tree(table_of(data@))) =~= Seq::<bool>::empty());
                assert(pack(Seq::<bool>::empty()) =~= Seq::<u8>::empty());
                assert(out@ =~= spec_encode(data@));
            }
            return out;
        },
    };
    let codes = generate_codes(&tree);
    proof {
        lemma_tree_leaves(table@);
        assert forall|i: int| 0 <= i < data@.len() implies (#[trigger] codes.spec_code(data@[i]))
            == Some(tree_code(tree, data@[i])) by {
            lemma_occ_positive(data@, i);
            lemma_occ_le_len(data@, data@[i]);
            assert(table@[data@[i] as int] == occ(data@, data@[i]) as u64);
            assert(support(table@).contains(data@[i]));
        }
    }
    let mut payload = match encode_payload(data, &codes) {
        Ok(p) => p,
        Err(_) => {
            proof {
                assert(codes.spec_code(data@[0]) is Some);
                assert(false);
            }
            unreached()
        },
    };
    proof {
        lemma_encode_bits_tree(data@, codes, tree);
        assert(payload@ == pack(encoded_bits(data@, huffman_tree(table_of(data@)))));
    }
    out.append(&mut payload);
    proof {
        assert(out@ =~= spec_encode(data@));
    }
    out
}

/// Decode a serialized byte sequence: parse the header, rebuild the
/// identical tree from it, and walk the payload bit by bit, emitting
/// exactly as many byte values as the table's counts sum to.  Fails with
/// a `FormatError` where the header is malformed or its counts sum
/// beyond any representable input length.
pub fn decode_bytes(data: &[u8]) -> (r: Result<Vec<u8>, FormatError>)
    ensures
        match r {
            Ok(v) => spec_decode(data@) == Some(v@),
            Err(_) => spec_decode(data@) is None,
        },
{
    let (table, used) = match read_header(data) {
        Ok(p) => p,
        Err(e) => {
            return Err(e);
        },
    };
    if table.is_empty() {
        return Ok(Vec::new());
    }
    let mut tot: u64 = 0;
    let mut b: usize = 0;
    while b < 256
        invariant
            table.wf(),
            b <= 256,
            tot == total_upto(table@, b as int),
            !support(table@).is_empty(),
            used <= data@.len(),
            spec_parse_header(data@) == Some((table@, used as int)),
        decreases 256 - b,
    {
        let c = table.get(b as u8);
        if tot > u64::MAX - c {
            proof {
                assert(c == table@[b as int]);
                assert(total_upto(table@, b + 1) == total_upto(table@, b as int)
                    + table@[b as int]);
                lemma_total_upto_grows(table@, b + 1, 256);
                assert(total(table@) > u64::MAX);
                assert(!support(table@).is_empty());
                assert(spec_parse_header(data@) == Some((table@, used as int)));
                assert(spec_decode(data@) is None);
            }
            return Err(FormatError);
        }
        tot = tot + c;
        b += 1;
    }
    let tree = match build_huffman_tree(&table) {
        Ok(tr) => tr,
        Err(_) => {
            proof {
                assert(false);
            }
            unreached()
        },
    };
    let payload = vstd::slice::slice_subrange(data, used, data.len());
    proof {
        assert(payload@ =~= data@.skip(used as int));
    }
    let out = decode_payload(payload, &tree, tot);
    Ok(out)
}

/// Code table validity: the tree a non-empty frequency table determines
/// assigns codes to exactly the byte values present in the table (one
/// each, since a code table maps each byte value at most once), and the
/// assigned codes are prefix-free: no present byte value's code is a
/// prefix of a different present byte value's code.
pub proof fn lemma_code_table_valid(t: Seq<u64>, b1: u8, b2: u8)
    requires
        table_wf(t),
        !support(t).is_empty(),
        total(t) <= u64::MAX,
        support(t).contains(b1),
        support(t).contains(b2),
        b1 != b2,
    ensures
        huffman_tree(t).leaf_bytes() =~= support(t),
        !tree_code(huffman_tree(t), b1).is_prefix_of(tree_code(huffman_tree(t), b2)),
{
    lemma_tree_leaves(t);
    crate::code::lemma_codes_prefix_free(huffman_tree(t), b1, b2);
}

/// The degenerate tree assigns every byte value a one-bit code, so the
/// encoded bitstream of `data` is one bit per input byte.
proof fn lemma_encoded_len_leaf(data: Seq<u8>, t: TreeNode)
    requires
        t is Leaf,
    ensures
        encoded_bits(data, t).len() == data.len(),
    decreases data.len(),
{
    if data.len() > 0 {
        lemma_encoded_len_leaf(data.drop_last(), t);
    }
}

/// Round trip: decoding an encoded byte sequence reproduces it exactly,
/// for every input — the empty sequence and a single repeated byte's
/// degenerate one-leaf tree included.  The table travels in the header,
/// both sides build the same tree from it, the counts' sum tells the
/// decoder exactly how many values to emit, and the final byte's zero
/// padding is never read as payload.
pub proof fn lemma_round_trip(data: Seq<u8>)
    requires
        data.len() <= u64::MAX,
    ensures
        spec_decode(spec_encode(data)) == Some(data),
{
    let t = table_of(data);
    let tree = huffman_tree(t);
    let bits = encoded_bits(data, tree);
    lemma_total_of_table(data);
    lemma_support_of_data(data);
    lemma_header_round_trip(t, pack(bits));
    let enc = spec_encode(data);
    assert(spec_parse_header(enc) == Some((t, spec_header(t).len() as int)));
    assert(enc.skip(spec_header(t).len() as int) =~= pack(bits));
    if support(t).is_empty() {
        assert(data =~= Seq::<u8>::empty());
    } else {
        lemma_tree_leaves(t);
        assert forall|i: int| 0 <= i < data.len() implies tree.leaf_bytes().contains(
            #[trigger] data[i],
        ) by {
            lemma_occ_positive(data, i);
            lemma_occ_le_len(data, data[i]);
            assert(t[data[i] as int] == occ(data, data[i]) as u64);
            assert(support(t).contains(data[i]));
        }
        lemma_unpack_pack(bits);
        let padded = bits + zeros(pad_len(bits.len()));
        match tree {
            TreeNode::Leaf { byte, .. } => {
                lemma_encoded_len_leaf(data, tree);
                assert(padded.len() >= data.len());
                assert forall|i: int| 0 <= i < data.len() implies data[i] == byte by {
                    assert(tree.leaf_bytes().contains(data[i]));
                    assert(tree.leaf_bytes() =~= set![byte]);
                }
                assert(decode_bits(tree, padded, data.len() as nat) =~= data);
            },
            TreeNode::Internal { .. } => {
                lemma_walk_encoded(tree, data, zeros(pad_len(bits.len())));
                assert(decode_bits(tree, padded, data.len() as nat) == data);
            },
        }
    }
}

} // verus!
