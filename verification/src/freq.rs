//! Frequency analysis: scanning a byte sequence into a table of
//! per-byte occurrence counts, and merging partial tables by summation.

use vstd::prelude::*;
use vstd::pervasive::VecAdditionalExecFns;

verus! {

/// Number of occurrences of `b` in `data`.
pub open spec fn occ(data: Seq<u8>, b: u8) -> nat
    decreases data.len(),
{
    if data.len() == 0 {
        0
    } else {
        occ(data.drop_last(), b) + (if data.last() == b {
            1nat
        } else {
            0nat
        })
    }
}

/// A byte cannot occur more often than the sequence is long.
pub proof fn lemma_occ_le_len(data: Seq<u8>, b: u8)
    ensures
        occ(data, b) <= data.len(),
    decreases data.len(),
{
    if data.len() > 0 {
        lemma_occ_le_len(data.drop_last(), b);
    }
}

/// Every byte of a sequence occurs in it.
pub proof fn lemma_occ_positive(data: Seq<u8>, i: int)
    requires
        0 <= i < data.len(),
    ensures
        occ(data, data[i]) > 0,
    decreases data.len(),
{
    if i < data.len() - 1 {
        lemma_occ_positive(data.drop_last(), i);
        assert(data.drop_last()[i] == data[i]);
    }
}

/// Occurrence counts add up over concatenation: counting the pieces of a
/// partitioned input and summing the partial counts gives the count over
/// the whole input.  This is what makes the chunked frequency scan agree
/// with the single-pass scan for every partitioning.
pub proof fn lemma_occ_concat(s1: Seq<u8>, s2: Seq<u8>, b: u8)
    ensures
        occ(s1 + s2, b) == occ(s1, b) + occ(s2, b),
    decreases s2.len(),
{
    if s2.len() == 0 {
        assert(s1 + s2 =~= s1);
    } else {
        assert((s1 + s2).drop_last() =~= s1 + s2.drop_last());
        lemma_occ_concat(s1, s2.drop_last(), b);
    }
}

/// A mapping from byte value (0-255) to a non-negative occurrence count.
///
/// The table is stored densely, one slot per byte value, so iteration
/// order is fixed and key uniqueness holds by construction.  Its view is
/// the sequence of 256 counts, indexed by byte value.
pub struct FrequencyTable {
    counts: Vec<u64>,
}

impl View for FrequencyTable {
    type V = Seq<u64>;

    closed spec fn view(&self) -> Seq<u64> {
        self.counts@
    }
}

/// A well-formed table has exactly one count per byte value.
pub open spec fn table_wf(t: Seq<u64>) -> bool {
    t.len() == 256
}

/// The set of byte values present in a table (count greater than zero).
pub open spec fn support(t: Seq<u64>) -> Set<u8> {
    Set::new(|b: u8| t[b as int] > 0)
}

/// Sum of the first `n` counts of a table, as an unbounded integer.
pub open spec fn total_upto(t: Seq<u64>, n: int) -> int
    decreases n,
{
    if n <= 0 {
        0
    } else {
        total_upto(t, n - 1) + t[n - 1]
    }
}

/// Sum of all counts of a table: the length of the described input.
pub open spec fn total(t: Seq<u64>) -> int {
    total_upto(t, 256)
}

/// Prefix sums of counts only grow.
pub proof fn lemma_total_upto_grows(t: Seq<u64>, n: int, m: int)
    requires
        0 <= n <= m,
    ensures
        total_upto(t, n) <= total_upto(t, m),
    decreases m - n,
{
    if n < m {
        lemma_total_upto_grows(t, n, m - 1);
    }
}

/// The table whose counts are exactly the occurrence counts of `data`.
pub open spec fn table_of(data: Seq<u8>) -> Seq<u64> {
    Seq::new(256, |b: int| occ(data, b as u8) as u64)
}

impl FrequencyTable {
    pub open spec fn wf(self) -> bool {
        table_wf(self@)
    }

    /// A fresh table with every count zero.
    pub fn new() -> (t: FrequencyTable)
        ensures
            t.wf(),
            forall|i: int| 0 <= i < 256 ==> t@[i] == 0,
    {
        FrequencyTable { counts: vec![0u64; 256] }
    }

    /// The count recorded for byte value `b`.
    pub fn get(&self, b: u8) -> (c: u64)
        requires
            self.wf(),
        ensures
            c == self@[b as int],
    {
        self.counts[b as usize]
    }

    /// Overwrite the count recorded for byte value `b`.
    pub fn set(&mut self, b: u8, c: u64)
        requires
            old(self).wf(),
        ensures
            final(self).wf(),
            final(self)@ == old(self)@.update(b as int, c),
    {
        self.counts.set(b as usize, c);
    }

    /// Whether any byte value is present at all.
    pub fn is_empty(&self) -> (r: bool)
        requires
            self.wf(),
        ensures
            r == support(self@).is_empty(),
    {
        let mut i: usize = 0;
        while i < 256
            invariant
                self.wf(),
                i <= 256,
                forall|j: int| 0 <= j < i ==> self@[j] == 0,
            decreases 256 - i,
        {
            if self.counts[i] > 0 {
                proof {
                    assert(support(self@).contains(i as u8));
                }
                return false;
            }
            i += 1;
        }
        proof {
            assert forall|b: u8| !support(self@).contains(b) by {
                assert(self@[b as int] == 0);
            }
            assert(support(self@) =~= Set::<u8>::empty());
        }
        true
    }
}

/// Single-pass frequency scan: the returned table records, for every byte
/// value, exactly its number of occurrences in `data`.
pub fn calculate_frequency(data: &[u8]) -> (t: FrequencyTable)
    ensures
        t.wf(),
        t@ == table_of(data@),
{
    let mut t = FrequencyTable::new();
    let mut i: usize = 0;
    while i < data.len()
        invariant
            t.wf(),
            i <= data@.len(),
            forall|b: u8| t@[b as int] == occ(data@.take(i as int), b),
        decreases data@.len() - i,
    {
        let b = data[i];
        proof {
            assert(data@.take(i + 1).drop_last() =~= data@.take(i as int));
            assert(data@.take(i + 1).last() == data@[i as int]);
            lemma_occ_le_len(data@.take(i as int), b);
        }
        let c = t.get(b);
        t.set(b, c + 1);
        i += 1;
    }
    proof {
        assert(data@.take(data@.len() as int) =~= data@);
        assert(t@ =~= table_of(data@));
    }
    t
}

/// Merge two partial tables by per-key summation.
///
/// The caller guarantees the sums fit in the count type; partial tables
/// drawn from chunks of one input always do, since each count is bounded
/// by the chunk's length.
pub fn merge_tables(a: &FrequencyTable, b: &FrequencyTable) -> (t: FrequencyTable)
    requires
        a.wf(),
        b.wf(),
        forall|i: int| 0 <= i < 256 ==> a@[i] + b@[i] <= u64::MAX,
    ensures
        t.wf(),
        forall|i: int| 0 <= i < 256 ==> t@[i] == a@[i] + b@[i],
{
    let mut t = FrequencyTable::new();
    let mut i: usize = 0;
    while i < 256
        invariant
            a.wf(),
            b.wf(),
            t.wf(),
            i <= 256,
            forall|j: int| 0 <= j < 256 ==> a@[j] + b@[j] <= u64::MAX,
            forall|j: int| 0 <= j < i ==> t@[j] == a@[j] + b@[j],
            forall|j: int| i <= j < 256 ==> t@[j] == 0,
        decreases 256 - i,
    {
        let sum = a.counts[i] + b.counts[i];
        t.counts.set(i, sum);
        i += 1;
    }
    t
}

/// Chunked frequency scan: partition `data` into `num_chunks` contiguous
/// chunks (the last one absorbing any remainder), scan each chunk on its
/// own, and merge the partial tables by summation.
///
/// The result equals the single-pass scan over the whole input for every
/// chunk count, which is what justifies handing the chunks to independent
/// workers: the merge is a per-key sum, so it is associative and
/// commutative, and no partition boundary can change the outcome.
pub fn calculate_frequency_parallel(data: &[u8], num_chunks: usize) -> (t: FrequencyTable)
    ensures
        t.wf(),
        t@ == table_of(data@),
{
    let n = data.len();
    let chunk_size = if num_chunks == 0 || n / num_chunks == 0 {
        n
    } else {
        n / num_chunks
    };
    if chunk_size == 0 {
        // Empty input: nothing to partition.
        let t = calculate_frequency(data);
        return t;
    }
    let mut acc = FrequencyTable::new();
    let mut pos: usize = 0;
    proof {
        assert(data@.take(0) =~= Seq::<u8>::empty());
        assert forall|b: u8| acc@[b as int] == occ(data@.take(0), b) by {
        }
    }
    while pos < n
        invariant
            acc.wf(),
            pos <= n,
            n == data@.len(),
            chunk_size > 0,
            forall|b: u8| acc@[b as int] == occ(data@.take(pos as int), b),
        decreases n - pos,
    {
        let end = if n - pos < chunk_size || n - pos - chunk_size < chunk_size {
            // Last chunk absorbs the remainder of the integer division.
            n
        } else {
            pos + chunk_size
        };
        let part = calculate_frequency(slice_chunk(data, pos, end));
        proof {
            assert forall|i: int| 0 <= i < 256 implies acc@[i] + part@[i] <= u64::MAX by {
                let b = i as u8;
                lemma_occ_le_len(data@.take(pos as int), b);
                lemma_occ_le_len(data@.subrange(pos as int, end as int), b);
                assert(acc@[b as int] == occ(data@.take(pos as int), b));
                assert(part@[b as int] == occ(data@.subrange(pos as int, end as int), b) as u64);
            }
        }
        let merged = merge_tables(&acc, &part);
        proof {
            assert forall|b: u8| merged@[b as int] == occ(data@.take(end as int), b) by {
                lemma_occ_le_len(data@.take(pos as int), b);
                lemma_occ_le_len(data@.subrange(pos as int, end as int), b);
                lemma_occ_concat(data@.take(pos as int), data@.subrange(pos as int, end as int), b);
                assert(data@.take(pos as int) + data@.subrange(pos as int, end as int) =~= data@.take(
                    end as int,
                ));
                assert(part@[b as int] == occ(data@.subrange(pos as int, end as int), b) as u64);
                assert(merged@[b as int] == acc@[b as int] + part@[b as int]);
            }
        }
        acc = merged;
        pos = end;
    }
    proof {
        assert(data@.take(n as int) =~= data@);
        assert(acc@ =~= table_of(data@));
    }
    acc
}

/// The contiguous chunk of `data` from `from` (inclusive) to `to`
/// (exclusive).
fn slice_chunk(data: &[u8], from: usize, to: usize) -> (r: &[u8])
    requires
        from <= to <= data@.len(),
    ensures
        r@ == data@.subrange(from as int, to as int),
{
    vstd::slice::slice_subrange(data, from, to)
}

/// The counts of a frequency table sum to the length of the input it was
/// drawn from.
pub proof fn lemma_total_of_table(data: Seq<u8>)
    requires
        data.len() <= u64::MAX,
    ensures
        total(table_of(data)) == data.len(),
{
    lemma_total_upto_of_table(data, 256);
    lemma_count_below_all(data);
}

proof fn lemma_total_upto_of_table(data: Seq<u8>, n: int)
    requires
        0 <= n <= 256,
        data.len() <= u64::MAX,
    ensures
        total_upto(table_of(data), n) == count_below(data, n),
    decreases n,
{
    if n > 0 {
        lemma_total_upto_of_table(data, n - 1);
        lemma_count_below_step(data, n);
        lemma_occ_le_len(data, (n - 1) as u8);
        assert(table_of(data)[n - 1] == occ(data, (n - 1) as u8) as u64);
    } else {
        lemma_count_below_zero(data);
    }
}

proof fn lemma_count_below_zero(data: Seq<u8>)
    ensures
        count_below(data, 0) == 0,
    decreases data.len(),
{
    if data.len() > 0 {
        lemma_count_below_zero(data.drop_last());
    }
}

/// Number of positions of `data` holding a byte value below `n`, counted
/// by induction over the sequence.
spec fn count_below(data: Seq<u8>, n: int) -> int
    decreases data.len(),
{
    if data.len() == 0 {
        0
    } else {
        count_below(data.drop_last(), n) + (if (data.last() as int) < n {
            1int
        } else {
            0int
        })
    }
}

proof fn lemma_count_below_step(data: Seq<u8>, n: int)
    requires
        1 <= n <= 256,
    ensures
        count_below(data, n) == count_below(data, n - 1) + occ(data, (n - 1) as u8),
    decreases data.len(),
{
    if data.len() > 0 {
        lemma_count_below_step(data.drop_last(), n);
    }
}

proof fn lemma_count_below_all(data: Seq<u8>)
    ensures
        count_below(data, 256) == data.len(),
    decreases data.len(),
{
    if data.len() > 0 {
        lemma_count_below_all(data.drop_last());
    }
}

} // verus!
