//! Signed variable-width big-endian integers: the pointer encoding used for
//! per-transition target deltas in the serialized automaton.

use vstd::prelude::*;
use crate::trie::{
    NodeM, TrieM, node_wf, trie_wf, levels_ref_ok, walk, has_trans, trans_index, letters_of,
    levels_of, pattern_represented, slice_of, levels_table_ok,
};

verus! {

/// A fatal size-limit violation hit while serializing a trie.
///
/// These are absolute structural limits of the binary layout; there is no
/// recovery short of changing the input pattern set.
#[derive(Clone, Copy, Debug, PartialEq, Eq, Structural)]
pub enum EncodeError {
    /// A target delta does not fit in three signed bytes.
    DeltaTooLarge,
    /// A node has more than 255 outgoing transitions.
    TooManyTransitions,
    /// A priority-table gap value exceeds 24.
    GapTooLarge,
    /// A priority digit exceeds 9.
    PriorityTooLarge,
    /// A priority-table offset reference does not fit in 12 bits.
    OffsetTooLarge,
    /// A priority-table slice length does not fit in 4 bits.
    LengthTooLarge,
    /// The pessimistic layout of the artifact exceeds the addressable size.
    ArtifactTooLarge,
}

/// Does `num` fit in `stride` signed big-endian bytes?
///
/// Stride 3 is special: three-byte deltas are stored biased by `2^23`, so the
/// representable range is the symmetric `[-2^23, 2^23)`.
pub open spec fn fits(num: int, stride: int) -> bool {
    if stride == 1 {
        -128 <= num < 128
    } else if stride == 2 {
        -32768 <= num < 32768
    } else {
        -0x80_0000 <= num < 0x80_0000
    }
}

/// The smallest stride (1, 2 or 3) whose signed range contains `num`.
pub open spec fn stride_of(num: int) -> int {
    if fits(num, 1) {
        1
    } else if fits(num, 2) {
        2
    } else {
        3
    }
}

/// The `stride`-byte big-endian encoding of `num`: two's complement for
/// strides 1 and 2, biased by `2^23` for stride 3.
pub open spec fn be_bytes(num: int, stride: int) -> Seq<u8> {
    if stride == 1 {
        seq![(num % 256) as u8]
    } else if stride == 2 {
        let m = num % 65536;
        seq![(m / 256) as u8, (m % 256) as u8]
    } else {
        let m = num + 0x80_0000;
        seq![(m / 65536) as u8, ((m / 256) % 256) as u8, (m % 256) as u8]
    }
}

/// Reads back the integer stored by `be_bytes`: the inverse decoding a
/// consumer of the artifact performs on a delta field.
pub open spec fn decode_be(bytes: Seq<u8>) -> int {
    if bytes.len() == 1 {
        let u = bytes[0] as int;
        if u < 128 {
            u
        } else {
            u - 256
        }
    } else if bytes.len() == 2 {
        let u = bytes[0] as int * 256 + bytes[1] as int;
        if u < 32768 {
            u
        } else {
            u - 65536
        }
    } else {
        bytes[0] as int * 65536 + bytes[1] as int * 256 + bytes[2] as int - 0x80_0000
    }
}

/// A value that fits a narrow stride also fits every wider one.
pub proof fn lemma_fits_monotone(num: int, s1: int, s2: int)
    requires
        1 <= s1 <= s2 <= 3,
        fits(num, s1),
    ensures
        fits(num, s2),
{
}

/// The signed ranges are closed between a representable value and zero: if
/// `hi` fits a stride and `num` lies between 0 and `hi` (on either side),
/// then `num` fits that stride too.
pub proof fn lemma_fits_between(num: int, hi: int, stride: int)
    requires
        1 <= stride <= 3,
        fits(hi, stride),
        0 <= num <= hi || hi <= num <= 0,
    ensures
        fits(num, stride),
{
}

/// Decoding a `stride`-byte field recovers exactly the value encoded into it.
pub proof fn lemma_be_bytes_roundtrip(num: int, stride: int)
    requires
        1 <= stride <= 3,
        fits(num, stride),
    ensures
        be_bytes(num, stride).len() == stride,
        decode_be(be_bytes(num, stride)) == num,
{
    if stride == 1 {
        if num >= 0 {
            assert(num % 256 == num);
        } else {
            assert(num % 256 == num + 256);
        }
    } else if stride == 2 {
        let m = num % 65536;
        if num >= 0 {
            assert(m == num);
        } else {
            assert(m == num + 65536);
        }
        assert((m / 256) * 256 + m % 256 == m) by (nonlinear_arith)
            requires 0 <= m < 65536;
        assert(0 <= m / 256 < 256) by (nonlinear_arith)
            requires 0 <= m < 65536;
    } else {
        let m = num + 0x80_0000;
        assert((m / 65536) * 65536 + ((m / 256) % 256) * 256 + m % 256 == m) by (nonlinear_arith)
            requires 0 <= m < 0x100_0000;
        assert(0 <= m / 65536 < 256 && 0 <= (m / 256) % 256 < 256) by (nonlinear_arith)
            requires 0 <= m < 0x100_0000;
    }
}

/// The number of bytes needed to encode the signed number `num`, or
/// [`EncodeError::DeltaTooLarge`] if it does not even fit three bytes.
pub fn how_many_bytes(num: i64) -> (r: Result<usize, EncodeError>)
    ensures
        fits(num as int, 3) ==> r == Ok::<usize, EncodeError>(stride_of(num as int) as usize),
        !fits(num as int, 3) ==> r == Err::<usize, EncodeError>(EncodeError::DeltaTooLarge),
{
    if -128 <= num && num < 128 {
        Ok(1)
    } else if -32768 <= num && num < 32768 {
        Ok(2)
    } else if -0x80_0000 <= num && num < 0x80_0000 {
        Ok(3)
    } else {
        Err(EncodeError::DeltaTooLarge)
    }
}

/// Appends the `stride`-byte big-endian encoding of `num` to `buf`.
pub fn to_be_bytes(buf: &mut Vec<u8>, num: i64, stride: usize)
    requires
        1 <= stride <= 3,
        fits(num as int, stride as int),
    ensures
        final(buf)@ == old(buf)@ + be_bytes(num as int, stride as int),
{
    if stride == 1 {
        let u: i64 = if num >= 0 { num } else { num + 256 };
        assert(u == (num as int) % 256);
        buf.push(u as u8);
        assert(buf@ =~= old(buf)@ + be_bytes(num as int, 1));
    } else if stride == 2 {
        let u: i64 = if num >= 0 { num } else { num + 65536 };
        assert(u == (num as int) % 65536);
        assert(0 <= u / 256 < 256 && 0 <= u % 256 < 256) by (nonlinear_arith)
            requires 0 <= u < 65536;
        buf.push((u / 256) as u8);
        buf.push((u % 256) as u8);
        assert(buf@ =~= old(buf)@ + be_bytes(num as int, 2));
    } else {
        let u: i64 = num + 0x80_0000;
        assert(0 <= u / 65536 < 256 && 0 <= (u / 256) % 256 < 256 && 0 <= u % 256 < 256)
            by (nonlinear_arith)
            requires 0 <= u < 0x100_0000;
        buf.push((u / 65536) as u8);
        buf.push(((u / 256) % 256) as u8);
        buf.push((u % 256) as u8);
        assert(buf@ =~= old(buf)@ + be_bytes(num as int, 3));
    }
}


// ---------------------------------------------------------------------------
// Artifact layout
// ---------------------------------------------------------------------------

pub open spec fn max_i(a: int, b: int) -> int {
    if a >= b {
        a
    } else {
        b
    }
}

/// The serialized size of a node under a given per-edge pointer stride:
/// header byte, optional transition-count byte, optional two-byte priority
/// reference, one byte per transition label and `stride` bytes per target.
pub open spec fn size_with(n: NodeM, stride: int) -> int {
    1 + (if n.trans.len() >= 31 {
        1int
    } else {
        0int
    }) + (if n.levels is Some {
        2int
    } else {
        0int
    }) + (1 + stride) * n.trans.len()
}

/// Where node records begin: after the root address and the priority table.
pub open spec fn start_of(t: TrieM) -> int {
    4 + t.levels.len() as int
}

/// Pass-one address estimate of node `i`: layout in table order with the
/// maximal stride of 3 assumed for every edge.
pub open spec fn est_addr(t: TrieM, i: int) -> int
    decreases i,
{
    if i <= 0 {
        start_of(t)
    } else {
        est_addr(t, i - 1) + size_with(t.nodes[i - 1], 3)
    }
}

/// The smallest stride sufficient for the first `j` estimated deltas of node
/// `i` (at least 1 even without targets).
pub open spec fn node_stride_upto(t: TrieM, i: int, j: int) -> int
    decreases j,
{
    if j <= 0 {
        1
    } else {
        max_i(
            node_stride_upto(t, i, j - 1),
            stride_of(est_addr(t, t.nodes[i].targets[j - 1]) - est_addr(t, i)),
        )
    }
}

/// The committed stride of node `i`.
pub open spec fn node_stride(t: TrieM, i: int) -> int {
    node_stride_upto(t, i, t.nodes[i].targets.len() as int)
}

/// Pass-two address of node `i`: layout in the same order with the
/// committed strides.
pub open spec fn true_addr(t: TrieM, i: int) -> int
    decreases i,
{
    if i <= 0 {
        start_of(t)
    } else {
        true_addr(t, i - 1) + size_with(t.nodes[i - 1], node_stride(t, i - 1))
    }
}

// The size limits of the layout, checked before anything is emitted.

pub open spec fn trans_counts_ok(t: TrieM) -> bool {
    forall|i: int| 0 <= i < t.nodes.len() ==> (#[trigger] t.nodes[i]).trans.len() <= 255
}

pub open spec fn est_within(t: TrieM) -> bool {
    forall|i: int| 1 <= i <= t.nodes.len() ==> #[trigger] est_addr(t, i) <= 0xFFFF_FFFF
}

pub open spec fn node_deltas_fit(t: TrieM, i: int) -> bool {
    forall|j: int|
        0 <= j < t.nodes[i].targets.len() ==> fits(
            est_addr(t, #[trigger] t.nodes[i].targets[j]) - est_addr(t, i),
            3,
        )
}

pub open spec fn deltas_fit(t: TrieM) -> bool {
    forall|i: int| 0 <= i < t.nodes.len() ==> #[trigger] node_deltas_fit(t, i)
}

pub open spec fn gaps_ok(t: TrieM) -> bool {
    forall|k: int| 0 <= k < t.levels.len() ==> (#[trigger] t.levels[k]).0 <= 24
}

pub open spec fn prios_ok(t: TrieM) -> bool {
    forall|k: int| 0 <= k < t.levels.len() ==> (#[trigger] t.levels[k]).1 <= 9
}

pub open spec fn offsets_ok(t: TrieM) -> bool {
    forall|i: int|
        0 <= i < t.nodes.len() ==> match (#[trigger] t.nodes[i]).levels {
            Some(r) => 4 + r.0 < 4096,
            None => true,
        }
}

pub open spec fn lens_ok(t: TrieM) -> bool {
    forall|i: int|
        0 <= i < t.nodes.len() ==> match (#[trigger] t.nodes[i]).levels {
            Some(r) => r.1 < 16,
            None => true,
        }
}

/// Four big-endian bytes of an absolute address.
pub open spec fn be32(x: int) -> Seq<u8> {
    seq![
        ((x / 0x100_0000) % 256) as u8,
        ((x / 0x1_0000) % 256) as u8,
        ((x / 0x100) % 256) as u8,
        (x % 256) as u8,
    ]
}

/// The priority table packed one byte per entry: `gap * 10 + priority`.
pub open spec fn levels_bytes(tbl: Seq<(int, int)>) -> Seq<u8> {
    tbl.map_values(|p: (int, int)| (p.0 * 10 + p.1) as u8)
}

/// Header byte: top bit "has priority data", two stride bits, five bits of
/// transition count capped at the sentinel 31.
pub open spec fn header_byte(n: NodeM, stride: int) -> u8 {
    ((if n.levels is Some {
        128int
    } else {
        0int
    }) + stride * 32 + (if n.trans.len() >= 31 {
        31int
    } else {
        n.trans.len() as int
    })) as u8
}

/// The extra transition-count byte, present only in the sentinel form.
pub open spec fn count_ext_bytes(n: NodeM) -> Seq<u8> {
    if n.trans.len() >= 31 {
        seq![n.trans.len() as u8]
    } else {
        Seq::empty()
    }
}

/// Two bytes of a priority reference: 12 bits of table offset (biased by the
/// 4-byte header prefix) and 4 bits of length.
pub open spec fn levels_ref_bytes(r: (int, int)) -> Seq<u8> {
    seq![((4 + r.0) / 16) as u8, (((4 + r.0) % 16) * 16 + r.1) as u8]
}

pub open spec fn node_ref_bytes(n: NodeM) -> Seq<u8> {
    match n.levels {
        Some(r) => levels_ref_bytes(r),
        None => Seq::empty(),
    }
}

/// The target deltas of node `i`, each relative to the node's own address
/// and encoded in the node's committed stride.
pub open spec fn deltas_bytes(t: TrieM, i: int, j: int) -> Seq<u8>
    decreases j,
{
    if j <= 0 {
        Seq::empty()
    } else {
        deltas_bytes(t, i, j - 1) + be_bytes(
            true_addr(t, t.nodes[i].targets[j - 1]) - true_addr(t, i),
            node_stride(t, i),
        )
    }
}

/// One serialized node record.
pub open spec fn node_bytes(t: TrieM, i: int) -> Seq<u8> {
    seq![header_byte(t.nodes[i], node_stride(t, i))] + count_ext_bytes(t.nodes[i])
        + node_ref_bytes(t.nodes[i]) + t.nodes[i].trans + deltas_bytes(
        t,
        i,
        t.nodes[i].targets.len() as int,
    )
}

/// The node records of the first `k` nodes, in table order.
pub open spec fn nodes_bytes(t: TrieM, k: int) -> Seq<u8>
    decreases k,
{
    if k <= 0 {
        Seq::empty()
    } else {
        nodes_bytes(t, k - 1) + node_bytes(t, k - 1)
    }
}

/// The whole artifact: root address, priority table, node records.
pub open spec fn artifact(t: TrieM) -> Seq<u8> {
    be32(true_addr(t, t.root)) + levels_bytes(t.levels) + nodes_bytes(t, t.nodes.len() as int)
}

/// What encoding a trie yields: the artifact, or the first size limit the
/// trie violates, in the order the limits are checked.
pub open spec fn encode_m(t: TrieM) -> Result<Seq<u8>, EncodeError> {
    if !trans_counts_ok(t) {
        Err(EncodeError::TooManyTransitions)
    } else if !est_within(t) {
        Err(EncodeError::ArtifactTooLarge)
    } else if !deltas_fit(t) {
        Err(EncodeError::DeltaTooLarge)
    } else if !gaps_ok(t) {
        Err(EncodeError::GapTooLarge)
    } else if !prios_ok(t) {
        Err(EncodeError::PriorityTooLarge)
    } else if !offsets_ok(t) {
        Err(EncodeError::OffsetTooLarge)
    } else if !lens_ok(t) {
        Err(EncodeError::LengthTooLarge)
    } else {
        Ok(artifact(t))
    }
}

// ---------------------------------------------------------------------------
// Address and stride soundness
// ---------------------------------------------------------------------------

pub proof fn lemma_stride_bounds(t: TrieM, i: int, j: int)
    ensures
        1 <= node_stride_upto(t, i, j) <= 3,
    decreases j,
{
    if j > 0 {
        lemma_stride_bounds(t, i, j - 1);
    }
}

/// The committed stride covers every one of the node's estimated deltas.
pub proof fn lemma_stride_covers(t: TrieM, i: int, j: int, jj: int)
    requires
        0 <= jj < j,
    ensures
        node_stride_upto(t, i, j) >= stride_of(
            est_addr(t, t.nodes[i].targets[jj]) - est_addr(t, i),
        ),
    decreases j,
{
    if jj < j - 1 {
        lemma_stride_covers(t, i, j - 1, jj);
    }
}

/// A node is never larger under its committed stride than under the
/// pessimistic stride of 3.
pub proof fn lemma_size_mono(n: NodeM, s: int)
    requires
        1 <= s <= 3,
    ensures
        1 <= size_with(n, s) <= size_with(n, 3),
{
    assert((1 + s) * n.trans.len() <= 4 * n.trans.len() && 0 <= (1 + s) * n.trans.len())
        by (nonlinear_arith)
        requires 1 <= s <= 3, n.trans.len() >= 0;
}

/// Committed addresses advance by no more than the estimates do: between any
/// two nodes, the true distance is non-negative and bounded by the estimated
/// distance. This is what keeps the two-pass layout sound.
pub proof fn lemma_addr_pair(t: TrieM, i: int, j: int)
    requires
        0 <= i <= j,
    ensures
        0 <= true_addr(t, j) - true_addr(t, i) <= est_addr(t, j) - est_addr(t, i),
    decreases j - i,
{
    if j > i {
        lemma_addr_pair(t, i, j - 1);
        lemma_stride_bounds(t, j - 1, t.nodes[j - 1].targets.len() as int);
        lemma_size_mono(t.nodes[j - 1], node_stride(t, j - 1));
    }
}

/// Every true target delta fits the stride committed from the estimates.
pub proof fn lemma_true_delta_fits(t: TrieM, i: int, j: int)
    requires
        0 <= i < t.nodes.len(),
        0 <= j < t.nodes[i].targets.len(),
        0 <= t.nodes[i].targets[j],
        node_deltas_fit(t, i),
    ensures
        fits(true_addr(t, t.nodes[i].targets[j]) - true_addr(t, i), node_stride(t, i)),
{
    let tj = t.nodes[i].targets[j];
    let e = est_addr(t, tj) - est_addr(t, i);
    let d = true_addr(t, tj) - true_addr(t, i);
    let st = node_stride(t, i);
    lemma_stride_bounds(t, i, t.nodes[i].targets.len() as int);
    lemma_stride_covers(t, i, t.nodes[i].targets.len() as int, j);
    assert(fits(e, 3));
    assert(fits(e, stride_of(e)));
    lemma_fits_monotone(e, stride_of(e), st);
    if tj >= i {
        lemma_addr_pair(t, i, tj);
        assert(0 <= d <= e);
    } else {
        lemma_addr_pair(t, tj, i);
        assert(e <= d <= 0);
    }
    lemma_fits_between(d, e, st);
}

/// Address and stride soundness of a successful encode: every serialized
/// target delta fits exactly in the node's committed stride, and decoding
/// the delta field recovers the exact address of the target node.
pub proof fn lemma_stride_soundness(t: TrieM, i: int, j: int)
    requires
        trie_wf(t),
        encode_m(t) is Ok,
        0 <= i < t.nodes.len(),
        0 <= j < t.nodes[i].targets.len(),
    ensures
        ({
            let tj = t.nodes[i].targets[j];
            let st = node_stride(t, i);
            let d = true_addr(t, tj) - true_addr(t, i);
            &&& fits(d, st)
            &&& be_bytes(d, st).len() == st
            &&& true_addr(t, tj) == true_addr(t, i) + decode_be(be_bytes(d, st))
        }),
{
    assert(node_wf(t.nodes[i], t.nodes.len() as int));
    assert(deltas_fit(t));
    assert(node_deltas_fit(t, i));
    lemma_true_delta_fits(t, i, j);
    lemma_stride_bounds(t, i, t.nodes[i].targets.len() as int);
    let tj = t.nodes[i].targets[j];
    let st = node_stride(t, i);
    let d = true_addr(t, tj) - true_addr(t, i);
    lemma_be_bytes_roundtrip(d, st);
}


// ---------------------------------------------------------------------------
// Record positions: the artifact places every record at its address
// ---------------------------------------------------------------------------

proof fn lemma_deltas_bytes_len(t: TrieM, i: int, j: int)
    requires
        0 <= j,
        1 <= node_stride(t, i) <= 3,
    ensures
        deltas_bytes(t, i, j).len() == j * node_stride(t, i),
    decreases j,
{
    if j > 0 {
        lemma_deltas_bytes_len(t, i, j - 1);
        let st = node_stride(t, i);
        let d = true_addr(t, t.nodes[i].targets[j - 1]) - true_addr(t, i);
        assert(be_bytes(d, st).len() == st) by {
            if st == 1 {
                assert(be_bytes(d, 1).len() == 1);
            } else if st == 2 {
                assert(be_bytes(d, 2).len() == 2);
            } else {
                assert(be_bytes(d, 3).len() == 3);
            }
        }
        assert(deltas_bytes(t, i, j).len() == deltas_bytes(t, i, j - 1).len() + be_bytes(
            d,
            st,
        ).len());
        assert((j - 1) * st + st == j * st) by (nonlinear_arith);
        assert(deltas_bytes(t, i, j).len() == j * node_stride(t, i));
    } else {
        assert(deltas_bytes(t, i, j).len() == 0);
        assert(j * node_stride(t, i) == 0) by (nonlinear_arith)
            requires j == 0,
        ;
    }
}

/// A node's record is exactly as long as the size its address was computed
/// from.
pub proof fn lemma_node_bytes_len(t: TrieM, i: int)
    requires
        0 <= i < t.nodes.len(),
        t.nodes[i].trans.len() == t.nodes[i].targets.len(),
    ensures
        node_bytes(t, i).len() == size_with(t.nodes[i], node_stride(t, i)),
{
    lemma_stride_bounds(t, i, t.nodes[i].targets.len() as int);
    lemma_deltas_bytes_len(t, i, t.nodes[i].targets.len() as int);
    let st = node_stride(t, i);
    let l = t.nodes[i].trans.len() as int;
    assert(l + l * st == (1 + st) * l) by (nonlinear_arith);
}

proof fn lemma_nodes_bytes_len(t: TrieM, k: int)
    requires
        trie_wf(t),
        0 <= k <= t.nodes.len(),
    ensures
        nodes_bytes(t, k).len() == true_addr(t, k) - start_of(t),
    decreases k,
{
    if k > 0 {
        lemma_nodes_bytes_len(t, k - 1);
        assert(node_wf(t.nodes[k - 1], t.nodes.len() as int));
        lemma_node_bytes_len(t, k - 1);
    }
}

#[verifier::rlimit(100)]
proof fn lemma_nodes_bytes_position(t: TrieM, i: int, k: int)
    requires
        trie_wf(t),
        0 <= i < k <= t.nodes.len(),
    ensures
        ({
            let off = true_addr(t, i) - start_of(t);
            let sz = size_with(t.nodes[i], node_stride(t, i));
            &&& off + sz <= nodes_bytes(t, k).len()
            &&& nodes_bytes(t, k).subrange(off, off + sz) == node_bytes(t, i)
        }),
    decreases k,
{
    let off = true_addr(t, i) - start_of(t);
    assert(node_wf(t.nodes[i], t.nodes.len() as int));
    let sz = size_with(t.nodes[i], node_stride(t, i));
    lemma_stride_bounds(t, i, t.nodes[i].targets.len() as int);
    lemma_size_mono(t.nodes[i], node_stride(t, i));
    lemma_addr_pair(t, 0, i);
    lemma_nodes_bytes_len(t, k - 1);
    lemma_node_bytes_len(t, k - 1);
    assert(node_wf(t.nodes[k - 1], t.nodes.len() as int));
    if k == i + 1 {
        lemma_nodes_bytes_len(t, i);
        lemma_node_bytes_len(t, i);
        assert(nodes_bytes(t, k) == nodes_bytes(t, i) + node_bytes(t, i));
        assert(nodes_bytes(t, k).subrange(off, off + sz) =~= node_bytes(t, i));
    } else {
        lemma_nodes_bytes_position(t, i, k - 1);
        lemma_addr_pair(t, i + 1, k - 1);
        assert(true_addr(t, i) + sz == true_addr(t, i + 1));
        assert(off + sz <= nodes_bytes(t, k - 1).len());
        assert(nodes_bytes(t, k) == nodes_bytes(t, k - 1) + node_bytes(t, k - 1));
        assert(nodes_bytes(t, k).subrange(off, off + sz) =~= nodes_bytes(t, k - 1).subrange(
            off,
            off + sz,
        ));
    }
}

/// The artifact is laid out exactly as the committed addresses say: it ends
/// where the last record ends, and the record of every node occupies the
/// bytes from the node's committed address to that address plus its size.
/// Together with the stride soundness of every delta field, this is what a
/// consumer needs to walk the artifact back.
pub proof fn lemma_record_positions(t: TrieM, i: int)
    requires
        trie_wf(t),
        0 <= i < t.nodes.len(),
    ensures
        ({
            let a = artifact(t);
            let addr = true_addr(t, i);
            let sz = size_with(t.nodes[i], node_stride(t, i));
            &&& a.len() == true_addr(t, t.nodes.len() as int)
            &&& start_of(t) <= addr && addr + sz <= a.len()
            &&& a.subrange(addr, addr + sz) == node_bytes(t, i)
        }),
{
    let a = artifact(t);
    let addr = true_addr(t, i);
    let sz = size_with(t.nodes[i], node_stride(t, i));
    let pre = be32(true_addr(t, t.root)) + levels_bytes(t.levels);
    assert(pre.len() == start_of(t));
    lemma_nodes_bytes_len(t, t.nodes.len() as int);
    lemma_nodes_bytes_position(t, i, t.nodes.len() as int);
    lemma_addr_pair(t, 0, i);
    assert(a.subrange(addr, addr + sz) =~= nodes_bytes(t, t.nodes.len() as int).subrange(
        addr - start_of(t),
        addr - start_of(t) + sz,
    ));
}


// ---------------------------------------------------------------------------
// Round trip: reading the artifact back
// ---------------------------------------------------------------------------
// What a consumer computes from the raw bytes alone: record fields, steps,
// walks and priority data, defined with no reference to the trie.

pub open spec fn rec_header(a: Seq<u8>, addr: int) -> int {
    a[addr] as int
}

pub open spec fn rec_stride(a: Seq<u8>, addr: int) -> int {
    (rec_header(a, addr) / 32) % 4
}

pub open spec fn rec_has_levels(a: Seq<u8>, addr: int) -> bool {
    rec_header(a, addr) >= 128
}

pub open spec fn rec_ext(a: Seq<u8>, addr: int) -> int {
    if rec_header(a, addr) % 32 == 31 {
        1
    } else {
        0
    }
}

pub open spec fn rec_count(a: Seq<u8>, addr: int) -> int {
    if rec_header(a, addr) % 32 == 31 {
        a[addr + 1] as int
    } else {
        rec_header(a, addr) % 32
    }
}

pub open spec fn rec_labels_at(a: Seq<u8>, addr: int) -> int {
    addr + 1 + rec_ext(a, addr) + (if rec_has_levels(a, addr) {
        2int
    } else {
        0int
    })
}

pub open spec fn rec_deltas_at(a: Seq<u8>, addr: int) -> int {
    rec_labels_at(a, addr) + rec_count(a, addr)
}

/// The artifact-absolute priority-table offset and length of a record.
pub open spec fn rec_ref(a: Seq<u8>, addr: int) -> (int, int) {
    let hi = a[addr + 1 + rec_ext(a, addr)] as int;
    let lo = a[addr + 2 + rec_ext(a, addr)] as int;
    (hi * 16 + lo / 16, lo % 16)
}

pub open spec fn rec_label(a: Seq<u8>, addr: int, j: int) -> u8 {
    a[rec_labels_at(a, addr) + j]
}

pub open spec fn rec_target(a: Seq<u8>, addr: int, j: int) -> int {
    addr + decode_be(
        a.subrange(
            rec_deltas_at(a, addr) + j * rec_stride(a, addr),
            rec_deltas_at(a, addr) + (j + 1) * rec_stride(a, addr),
        ),
    )
}

pub open spec fn rec_step(a: Seq<u8>, addr: int, b: u8) -> Option<int> {
    if exists|j: int| 0 <= j < rec_count(a, addr) && rec_label(a, addr, j) == b {
        let j = choose|j: int| 0 <= j < rec_count(a, addr) && rec_label(a, addr, j) == b;
        Some(rec_target(a, addr, j))
    } else {
        None
    }
}

/// Walking the artifact by bytes: match a transition label, add the decoded
/// delta, repeat.
pub open spec fn rec_walk(a: Seq<u8>, addr: int, s: Seq<u8>) -> Option<int>
    decreases s.len(),
{
    if s.len() == 0 {
        Some(addr)
    } else {
        match rec_step(a, addr, s[0]) {
            Some(x) => rec_walk(a, x, s.drop_first()),
            None => None,
        }
    }
}

/// The declared root address: the four leading big-endian bytes.
pub open spec fn rec_root(a: Seq<u8>) -> int {
    a[0] as int * 0x100_0000 + a[1] as int * 0x1_0000 + a[2] as int * 0x100 + a[3] as int
}

/// The decoded `(gap, priority)` pairs of a record's priority reference.
pub open spec fn rec_levels_pairs(a: Seq<u8>, addr: int) -> Seq<(int, int)> {
    if rec_has_levels(a, addr) {
        let r = rec_ref(a, addr);
        Seq::new(r.1 as nat, |k: int| ((a[r.0 + k] as int) / 10, (a[r.0 + k] as int) % 10))
    } else {
        Seq::empty()
    }
}

/// The delta field of target `j` within the serialized delta block.
proof fn lemma_deltas_slice(t: TrieM, i: int, cap: int, j: int)
    requires
        0 <= j < cap,
        1 <= node_stride(t, i) <= 3,
    ensures
        ({
            let st = node_stride(t, i);
            deltas_bytes(t, i, cap).subrange(j * st, (j + 1) * st) == be_bytes(
                true_addr(t, t.nodes[i].targets[j]) - true_addr(t, i),
                st,
            )
        }),
    decreases cap,
{
    let st = node_stride(t, i);
    lemma_deltas_bytes_len(t, i, cap);
    lemma_deltas_bytes_len(t, i, cap - 1);
    lemma_deltas_bytes_len(t, i, j);
    lemma_deltas_bytes_len(t, i, j + 1);
    assert(0 <= j * st && (j + 1) * st <= cap * st && j * st < (j + 1) * st) by (nonlinear_arith)
        requires
            0 <= j < cap,
            1 <= st,
    ;
    if j == cap - 1 {
        assert(deltas_bytes(t, i, cap).subrange(j * st, (j + 1) * st) =~= be_bytes(
            true_addr(t, t.nodes[i].targets[j]) - true_addr(t, i),
            st,
        ));
    } else {
        lemma_deltas_slice(t, i, cap - 1, j);
        assert((j + 1) * st <= (cap - 1) * st) by (nonlinear_arith)
            requires
                j + 1 <= cap - 1,
                1 <= st,
        ;
        assert(deltas_bytes(t, i, cap).subrange(j * st, (j + 1) * st) =~= deltas_bytes(
            t,
            i,
            cap - 1,
        ).subrange(j * st, (j + 1) * st));
    }
}

/// Reading the record of node `i` out of the artifact recovers exactly the
/// node's committed stride, its transition count and labels, its priority
/// reference, and — decoding each delta field — the exact committed address
/// of every target.
#[verifier::rlimit(100)]
#[verifier::spinoff_prover]
pub proof fn lemma_record_fields(t: TrieM, i: int)
    requires
        trie_wf(t),
        encode_m(t) is Ok,
        0 <= i < t.nodes.len(),
    ensures
        ({
            let a = artifact(t);
            let addr = true_addr(t, i);
            let nm = t.nodes[i];
            let st = node_stride(t, i);
            &&& rec_stride(a, addr) == st
            &&& rec_count(a, addr) == nm.trans.len()
            &&& rec_has_levels(a, addr) == (nm.levels is Some)
            &&& forall|j: int| 0 <= j < nm.trans.len() ==> rec_label(a, addr, j) == nm.trans[j]
            &&& forall|j: int|
                0 <= j < nm.targets.len() ==> rec_target(a, addr, j) == true_addr(
                    t,
                    nm.targets[j],
                )
            &&& match nm.levels {
                Some(r) => rec_ref(a, addr) == (4 + r.0, r.1),
                None => true,
            }
        }),
{
    let a = artifact(t);
    let addr = true_addr(t, i);
    let nm = t.nodes[i];
    let st = node_stride(t, i);
    let nb = node_bytes(t, i);
    let sz = size_with(nm, st);
    assert(node_wf(nm, t.nodes.len() as int));
    lemma_stride_bounds(t, i, nm.targets.len() as int);
    lemma_record_positions(t, i);
    lemma_node_bytes_len(t, i);
    lemma_deltas_bytes_len(t, i, nm.targets.len() as int);
    assert forall|x: int| 0 <= x < sz implies a[addr + x] == nb[x] by {
        assert(a.subrange(addr, addr + sz)[x] == a[addr + x]);
    }
    let aa: int = if nm.levels is Some {
        1
    } else {
        0
    };
    let cc: int = if nm.trans.len() >= 31 {
        31
    } else {
        nm.trans.len() as int
    };
    let ext: int = if nm.trans.len() >= 31 {
        1
    } else {
        0
    };
    let lvl: int = if nm.levels is Some {
        2
    } else {
        0
    };
    assert(nb[0] == header_byte(nm, st));
    assert(header_byte(nm, st) as int == 128 * aa + 32 * st + cc);
    assert((128 * aa + 32 * st + cc) / 32 % 4 == st && (128 * aa + 32 * st + cc) % 32 == cc && (
    128 * aa + 32 * st + cc >= 128) == (aa == 1)) by (nonlinear_arith)
        requires
            aa == 0 || aa == 1,
            1 <= st <= 3,
            0 <= cc <= 31,
    ;
    assert(rec_stride(a, addr) == st);
    assert(rec_has_levels(a, addr) == (nm.levels is Some));
    assert(rec_ext(a, addr) == ext);
    // The transition count, possibly in the extra byte.
    assert(trans_counts_ok(t));
    if nm.trans.len() >= 31 {
        assert(nb[1] == count_ext_bytes(nm)[0]);
        assert(nb[1] == nm.trans.len() as u8);
        assert(rec_count(a, addr) == nm.trans.len());
    } else {
        assert(rec_count(a, addr) == nm.trans.len());
    }
    // The priority reference, biased by the 4-byte prefix.
    assert(offsets_ok(t) && lens_ok(t));
    match nm.levels {
        Some(r) => {
            assert(nb[1 + ext] == levels_ref_bytes(r)[0]);
            assert(nb[2 + ext] == levels_ref_bytes(r)[1]);
            assert(0 <= r.0 && 4 + r.0 < 4096 && 0 <= r.1 < 16) by {
                assert(levels_ref_ok(nm.levels, t.levels.len() as int));
            }
            let off = 4 + r.0;
            assert(levels_ref_bytes(r)[0] as int == off / 16 && levels_ref_bytes(r)[1] as int
                == (off % 16) * 16 + r.1) by {
                assert(0 <= off / 16 < 256 && 0 <= (off % 16) * 16 + r.1 < 256)
                    by (nonlinear_arith)
                    requires
                        0 <= off < 4096,
                        0 <= r.1 < 16,
                ;
            }
            assert((off / 16) * 16 + ((off % 16) * 16 + r.1) / 16 == off && ((off % 16) * 16
                + r.1) % 16 == r.1) by (nonlinear_arith)
                requires
                    0 <= off < 4096,
                    0 <= r.1 < 16,
            ;
            assert(rec_ref(a, addr) == (4 + r.0, r.1));
        },
        None => {},
    }
    // The labels, verbatim.
    assert forall|j: int| 0 <= j < nm.trans.len() implies rec_label(a, addr, j) == nm.trans[j] by {
        assert(nb[1 + ext + lvl + j] == nm.trans[j]);
        assert(rec_labels_at(a, addr) == addr + 1 + ext + lvl);
        assert(a[addr + (1 + ext + lvl + j)] == nb[1 + ext + lvl + j]);
    }
    // The targets: each delta field decodes to the exact target address.
    assert forall|j: int| 0 <= j < nm.targets.len() implies rec_target(a, addr, j) == true_addr(
        t,
        nm.targets[j],
    ) by {
        let dstart = 1 + ext + lvl + nm.trans.len() as int;
        assert(rec_deltas_at(a, addr) == addr + dstart);
        let d = true_addr(t, nm.targets[j]) - true_addr(t, i);
        assert(deltas_fit(t) && node_deltas_fit(t, i));
        lemma_true_delta_fits(t, i, j);
        lemma_be_bytes_roundtrip(d, st);
        lemma_deltas_slice(t, i, nm.targets.len() as int, j);
        assert(0 <= j * st && (j + 1) * st <= nm.targets.len() * st) by (nonlinear_arith)
            requires
                0 <= j < nm.targets.len(),
                1 <= st,
        ;
        assert(a.subrange(addr + dstart + j * st, addr + dstart + (j + 1) * st) =~= nb.subrange(
            dstart + j * st,
            dstart + (j + 1) * st,
        ));
        assert(nb.subrange(dstart + j * st, dstart + (j + 1) * st) =~= deltas_bytes(
            t,
            i,
            nm.targets.len() as int,
        ).subrange(j * st, (j + 1) * st));
        assert(decode_be(
            a.subrange(addr + dstart + j * st, addr + dstart + (j + 1) * st),
        ) == d);
    }
}


/// Walking the artifact by bytes mirrors walking the trie exactly: a byte
/// sequence reaches a node if and only if it reaches that node's record.
pub proof fn lemma_artifact_walks(t: TrieM, i: int, s: Seq<u8>)
    requires
        trie_wf(t),
        encode_m(t) is Ok,
        0 <= i < t.nodes.len(),
    ensures
        match walk(t.nodes, i, s) {
            Some(k) => rec_walk(artifact(t), true_addr(t, i), s) == Some(true_addr(t, k)),
            None => rec_walk(artifact(t), true_addr(t, i), s) is None,
        },
    decreases s.len(),
{
    let a = artifact(t);
    let addr = true_addr(t, i);
    let nm = t.nodes[i];
    if s.len() > 0 {
        lemma_record_fields(t, i);
        assert(node_wf(nm, t.nodes.len() as int));
        let b = s[0];
        if has_trans(nm, b) {
            let jt = trans_index(nm, b);
            assert(0 <= jt < nm.trans.len() && nm.trans[jt] == b);
            assert(rec_label(a, addr, jt) == b);
            assert(exists|j: int| 0 <= j < rec_count(a, addr) && rec_label(a, addr, j) == b);
            let jr = choose|j: int| 0 <= j < rec_count(a, addr) && rec_label(a, addr, j) == b;
            assert(rec_label(a, addr, jr) == nm.trans[jr]);
            assert(jr == jt);
            assert(rec_step(a, addr, b) == Some(rec_target(a, addr, jt)));
            let tgt = nm.targets[jt];
            assert(0 <= tgt < t.nodes.len());
            assert(rec_target(a, addr, jt) == true_addr(t, tgt));
            lemma_artifact_walks(t, tgt, s.drop_first());
            assert(walk(t.nodes, i, s) == walk(t.nodes, tgt, s.drop_first()));
            assert(rec_walk(a, addr, s) == rec_walk(a, true_addr(t, tgt), s.drop_first()));
        } else {
            assert forall|j: int| 0 <= j < rec_count(a, addr) implies rec_label(a, addr, j)
                != b by {
                assert(rec_label(a, addr, j) == nm.trans[j]);
            }
            assert(rec_step(a, addr, b) is None);
            assert(walk(t.nodes, i, s) is None);
        }
    }
}

/// Round trip: the artifact is lossless. Using only the declared root
/// address, every represented pattern's letter path is walkable through the
/// serialized records, and the priority reference of the record reached
/// decodes — through the packed table bytes — to exactly the pattern's
/// `(gap, priority)` sequence.
pub proof fn lemma_round_trip(t: TrieM, p: Seq<u8>)
    requires
        trie_wf(t),
        encode_m(t) is Ok,
        pattern_represented(t, p),
    ensures
        ({
            let a = artifact(t);
            &&& rec_root(a) == true_addr(t, t.root)
            &&& rec_walk(a, rec_root(a), letters_of(p)) is Some
            &&& rec_levels_pairs(a, rec_walk(a, rec_root(a), letters_of(p))->Some_0)
                == levels_of(p)
        }),
{
    let a = artifact(t);
    let ra = true_addr(t, t.root);
    let hdr = be32(ra);
    let lvb = levels_bytes(t.levels);
    assert(lvb.len() == t.levels.len());
    // The root address fits the four leading bytes and is recoverable.
    lemma_addr_pair(t, 0, t.root);
    assert(4 * t.nodes[0].trans.len() >= 0);
    assert(est_addr(t, 0) == start_of(t));
    assert(est_addr(t, 1) == start_of(t) + size_with(t.nodes[0], 3));
    assert(est_addr(t, 1) <= 0xFFFF_FFFF);
    if t.root >= 1 {
        lemma_addr_pair(t, t.root, t.root);
        assert(true_addr(t, t.root) <= est_addr(t, t.root)) by {
            lemma_addr_pair(t, 0, t.root);
            assert(true_addr(t, 0) == est_addr(t, 0));
        }
        assert(est_addr(t, t.root) <= 0xFFFF_FFFF);
    } else {
        assert(ra == start_of(t));
        assert(ra <= 0xFFFF_FFFF);
    }
    assert(0 <= ra <= 0xFFFF_FFFF);
    assert forall|x: int| 0 <= x < 4 implies a[x] == hdr[x] by {}
    assert(rec_root(a) == ra) by {
        assert(hdr[0] as int == (ra / 0x100_0000) % 256);
        assert(hdr[1] as int == (ra / 0x1_0000) % 256);
        assert(hdr[2] as int == (ra / 0x100) % 256);
        assert(hdr[3] as int == ra % 256);
        assert(((ra / 0x100_0000) % 256) * 0x100_0000 + ((ra / 0x1_0000) % 256) * 0x1_0000 + ((
        ra / 0x100) % 256) * 0x100 + ra % 256 == ra) by (nonlinear_arith)
            requires
                0 <= ra < 0x1_0000_0000,
        ;
    }
    // The walk mirrors the trie's walk to the terminal record.
    let ls = letters_of(p);
    let k = walk(t.nodes, t.root, ls)->Some_0;
    assert(walk(t.nodes, t.root, ls) == Some(k) && 0 <= k < t.nodes.len());
    let r = t.nodes[k].levels->Some_0;
    assert(t.nodes[k].levels == Some(r) && slice_of(t.levels, r) == levels_of(p));
    lemma_artifact_walks(t, t.root, ls);
    let ka = true_addr(t, k);
    assert(rec_walk(a, ra, ls) == Some(ka));
    // The record's reference selects the packed table bytes of the slice.
    lemma_record_fields(t, k);
    assert(rec_has_levels(a, ka));
    assert(rec_ref(a, ka) == (4 + r.0, r.1));
    assert(levels_ref_ok(t.nodes[k].levels, t.levels.len() as int));
    assert(0 <= r.0 && 0 <= r.1 && r.0 + r.1 <= t.levels.len());
    assert(gaps_ok(t) && prios_ok(t) && levels_table_ok(t.levels));
    let pairs = rec_levels_pairs(a, ka);
    assert(pairs.len() == r.1);
    assert(pairs =~= slice_of(t.levels, r)) by {
        assert forall|x: int| 0 <= x < r.1 implies pairs[x] == slice_of(t.levels, r)[x] by {
            let g = t.levels[r.0 + x].0;
            let pr = t.levels[r.0 + x].1;
            assert(0 <= g <= 24 && 0 <= pr <= 9);
            assert(a[4 + r.0 + x] == lvb[r.0 + x]);
            assert(lvb[r.0 + x] as int == g * 10 + pr) by {
                assert(lvb[r.0 + x] == (g * 10 + pr) as u8);
            }
            assert((g * 10 + pr) / 10 == g && (g * 10 + pr) % 10 == pr) by (nonlinear_arith)
                requires
                    0 <= g,
                    0 <= pr < 10,
            ;
        }
    }
}


// ---------------------------------------------------------------------------
// The executable encoder
// ---------------------------------------------------------------------------

impl crate::trie::TrieBuilder {
    /// Serialize the trie into its flat binary artifact: 4-byte big-endian
    /// root address, packed priority table, then one record per node with a
    /// header byte, optional count byte, optional priority reference, the
    /// transition labels and the stride-encoded target deltas. Reports the
    /// first size limit the trie violates instead of an artifact.
    #[verifier::rlimit(60)]
    pub fn encode(&self) -> (r: Result<Vec<u8>, EncodeError>)
        requires
            trie_wf(self@),
        ensures
            match r {
                Ok(v) => encode_m(self@) == Ok::<Seq<u8>, EncodeError>(v@),
                Err(e) => encode_m(self@) == Err::<Seq<u8>, EncodeError>(e),
            },
    {
        let ghost t = self@;
        let nodes = self.nodes_ref();
        let levels = self.levels_ref();
        let n = nodes.len();
        proof {
            assert(t.nodes.len() == n as int);
            assert(t.levels.len() == levels@.len());
        }
        // The transition-count limit, checked first.
        let mut i: usize = 0;
        while i < n
            invariant
                t == self@,
                i <= n,
                n == nodes@.len(),
                crate::trie::nodes_view(nodes@) == t.nodes,
                forall|k: int| 0 <= k < i ==> (#[trigger] t.nodes[k]).trans.len() <= 255,
            decreases n - i,
        {
            proof {
                assert(t.nodes[i as int] == nodes@[i as int]@);
            }
            if nodes[i].trans.len() > 255 {
                proof {
                    assert(!trans_counts_ok(t));
                }
                return Err(EncodeError::TooManyTransitions);
            }
            i += 1;
        }
        proof {
            assert(trans_counts_ok(t));
        }
        // A priority table so large that the layout cannot even start.
        if levels.len() > 0xFFFF_FFFA {
            proof {
                assert(4 * t.nodes[0].trans.len() >= 0);
                assert(size_with(t.nodes[0], 3) >= 1);
                assert(est_addr(t, 0) == start_of(t));
                assert(est_addr(t, 1) == start_of(t) + size_with(t.nodes[0], 3));
                assert(est_addr(t, 1) > 0xFFFF_FFFF);
                assert(!est_within(t));
            }
            return Err(EncodeError::ArtifactTooLarge);
        }
        // Pass one: pessimistic address estimates under the maximal stride.
        let mut addr: u64 = 4 + levels.len() as u64;
        let mut est: Vec<u64> = Vec::new();
        let mut i: usize = 0;
        while i < n
            invariant
                t == self@,
                i <= n,
                n == nodes@.len(),
                crate::trie::nodes_view(nodes@) == t.nodes,
                t.levels.len() == levels@.len(),
                t.levels.len() <= 0xFFFF_FFFA,
                trans_counts_ok(t),
                est@.len() == i,
                addr == est_addr(t, i as int),
                addr <= 0xFFFF_FFFF,
                forall|k: int| 0 <= k < i ==> est@[k] == est_addr(t, k),
                forall|k: int| 0 <= k < i ==> #[trigger] est@[k] <= 0xFFFF_FFFF,
                forall|k: int| 1 <= k <= i ==> #[trigger] est_addr(t, k) <= 0xFFFF_FFFF,
            decreases n - i,
        {
            est.push(addr);
            proof {
                assert(t.nodes[i as int] == nodes@[i as int]@);
            }
            let tl = nodes[i].trans.len();
            proof {
                assert(tl <= 255);
            }
            let ext: u64 = if tl >= 31 { 1 } else { 0 };
            let lvb: u64 = if nodes[i].levels.is_some() { 2 } else { 0 };
            let sz: u64 = 1 + ext + lvb + 4 * (tl as u64);
            proof {
                assert(sz as int == size_with(t.nodes[i as int], 3));
            }
            addr = addr + sz;
            if addr > 0xFFFF_FFFF {
                proof {
                    assert(est_addr(t, i as int + 1) > 0xFFFF_FFFF);
                    assert(!est_within(t));
                }
                return Err(EncodeError::ArtifactTooLarge);
            }
            i += 1;
        }
        proof {
            assert(est_within(t));
        }
        // Pass two: commit the minimal sufficient stride per node and the
        // true addresses.
        let mut addr2: u64 = 4 + levels.len() as u64;
        let mut addrs: Vec<u64> = Vec::new();
        let mut strides: Vec<usize> = Vec::new();
        let mut i: usize = 0;
        while i < n
            invariant
                t == self@,
                i <= n,
                n == nodes@.len(),
                crate::trie::nodes_view(nodes@) == t.nodes,
                t.levels.len() == levels@.len(),
                t.levels.len() <= 0xFFFF_FFFA,
                trie_wf(t),
                trans_counts_ok(t),
                est_within(t),
                est@.len() == n,
                forall|k: int| 0 <= k < n ==> est@[k] == est_addr(t, k),
                forall|k: int| 0 <= k < n ==> #[trigger] est@[k] <= 0xFFFF_FFFF,
                addrs@.len() == i,
                strides@.len() == i,
                addr2 == true_addr(t, i as int),
                addr2 <= 0xFFFF_FFFF,
                forall|k: int| 0 <= k < i ==> addrs@[k] == true_addr(t, k),
                forall|k: int| 0 <= k < i ==> #[trigger] addrs@[k] <= 0xFFFF_FFFF,
                forall|k: int| 0 <= k < i ==> strides@[k] == node_stride(t, k),
                forall|k: int| 0 <= k < i ==> #[trigger] node_deltas_fit(t, k),
            decreases n - i,
        {
            proof {
                assert(t.nodes[i as int] == nodes@[i as int]@);
                assert(node_wf(t.nodes[i as int], t.nodes.len() as int));
            }
            let tl2 = nodes[i].targets.len();
            let mut stride: usize = 1;
            let mut j: usize = 0;
            while j < tl2
                invariant
                    t == self@,
                    i < n,
                    j <= tl2,
                    n == nodes@.len(),
                    crate::trie::nodes_view(nodes@) == t.nodes,
                    trie_wf(t),
                    trans_counts_ok(t),
                    est_within(t),
                    est@.len() == n,
                    forall|k: int| 0 <= k < n ==> est@[k] == est_addr(t, k),
                    forall|k: int| 0 <= k < n ==> #[trigger] est@[k] <= 0xFFFF_FFFF,
                    tl2 as int == t.nodes[i as int].targets.len(),
                    stride as int == node_stride_upto(t, i as int, j as int),
                    1 <= stride <= 3,
                    forall|jj: int|
                        0 <= jj < j ==> fits(
                            est_addr(t, #[trigger] t.nodes[i as int].targets[jj]) - est_addr(
                                t,
                                i as int,
                            ),
                            3,
                        ),
                decreases tl2 - j,
            {
                proof {
                    assert(t.nodes[i as int] == nodes@[i as int]@);
                    assert(node_wf(t.nodes[i as int], t.nodes.len() as int));
                }
                let tgt = nodes[i].targets[j];
                proof {
                    assert(t.nodes[i as int].targets[j as int] == tgt as int);
                    assert((tgt as int) < t.nodes.len());
                    assert(est@[tgt as int] == est_addr(t, tgt as int));
                    assert(est@[i as int] == est_addr(t, i as int));
                }
                let d: i64 = est[tgt] as i64 - est[i] as i64;
                proof {
                    assert(d as int == est_addr(t, tgt as int) - est_addr(t, i as int));
                }
                match how_many_bytes(d) {
                    Ok(s) => {
                        if s > stride {
                            stride = s;
                        }
                        proof {
                            assert(stride as int == node_stride_upto(t, i as int, j as int + 1));
                        }
                    },
                    Err(e) => {
                        proof {
                            assert(!fits(
                                est_addr(t, t.nodes[i as int].targets[j as int]) - est_addr(
                                    t,
                                    i as int,
                                ),
                                3,
                            ));
                            assert(!node_deltas_fit(t, i as int));
                            assert(!deltas_fit(t));
                        }
                        return Err(e);
                    },
                }
                j += 1;
            }
            proof {
                assert(stride as int == node_stride(t, i as int));
                assert(node_deltas_fit(t, i as int));
            }
            addrs.push(addr2);
            strides.push(stride);
            let tl = nodes[i].trans.len();
            proof {
                assert(tl <= 255);
            }
            let ext: u64 = if tl >= 31 { 1 } else { 0 };
            let lvb: u64 = if nodes[i].levels.is_some() { 2 } else { 0 };
            proof {
                assert((1 + stride as int) * (tl as int) <= 1024 && 0 <= (1 + stride as int) * (
                tl as int)) by (nonlinear_arith)
                    requires
                        1 <= stride <= 3,
                        0 <= tl <= 255,
                ;
            }
            let sz2: u64 = 1 + ext + lvb + (1 + stride as u64) * (tl as u64);
            proof {
                assert(sz2 as int == size_with(t.nodes[i as int], node_stride(t, i as int)));
                lemma_addr_pair(t, 0, i as int + 1);
                assert(true_addr(t, 0) == est_addr(t, 0));
                assert(est_addr(t, i as int + 1) <= 0xFFFF_FFFF);
                assert(true_addr(t, i as int + 1) <= 0xFFFF_FFFF);
            }
            addr2 = addr2 + sz2;
            i += 1;
        }
        proof {
            assert(deltas_fit(t));
        }
        // The priority-table limits.
        let ll = levels.len();
        let mut k: usize = 0;
        while k < ll
            invariant
                t == self@,
                k <= ll,
                ll == levels@.len(),
                crate::trie::lift_levels(levels@) == t.levels,
                trans_counts_ok(t),
                est_within(t),
                deltas_fit(t),
                forall|x: int| 0 <= x < k ==> (#[trigger] t.levels[x]).0 <= 24,
            decreases ll - k,
        {
            proof {
                assert(t.levels[k as int] == (levels@[k as int].0 as int, levels@[k as int].1 as int));
            }
            if levels[k].0 > 24 {
                proof {
                    assert(!gaps_ok(t));
                }
                return Err(EncodeError::GapTooLarge);
            }
            k += 1;
        }
        proof {
            assert(gaps_ok(t));
        }
        let mut k: usize = 0;
        while k < ll
            invariant
                t == self@,
                k <= ll,
                ll == levels@.len(),
                crate::trie::lift_levels(levels@) == t.levels,
                trans_counts_ok(t),
                est_within(t),
                deltas_fit(t),
                gaps_ok(t),
                forall|x: int| 0 <= x < k ==> (#[trigger] t.levels[x]).1 <= 9,
            decreases ll - k,
        {
            proof {
                assert(t.levels[k as int] == (levels@[k as int].0 as int, levels@[k as int].1 as int));
            }
            if levels[k].1 > 9 {
                proof {
                    assert(!prios_ok(t));
                }
                return Err(EncodeError::PriorityTooLarge);
            }
            k += 1;
        }
        proof {
            assert(prios_ok(t));
        }
        // The priority-reference limits.
        let mut i: usize = 0;
        while i < n
            invariant
                t == self@,
                i <= n,
                n == nodes@.len(),
                crate::trie::nodes_view(nodes@) == t.nodes,
                trans_counts_ok(t),
                est_within(t),
                deltas_fit(t),
                gaps_ok(t),
                prios_ok(t),
                forall|x: int|
                    0 <= x < i ==> match (#[trigger] t.nodes[x]).levels {
                        Some(r2) => 4 + r2.0 < 4096,
                        None => true,
                    },
            decreases n - i,
        {
            proof {
                assert(t.nodes[i as int] == nodes@[i as int]@);
            }
            match nodes[i].levels {
                Some(r2) => {
                    if r2.0 > 4091 {
                        proof {
                            assert(!offsets_ok(t));
                        }
                        return Err(EncodeError::OffsetTooLarge);
                    }
                },
                None => {},
            }
            i += 1;
        }
        proof {
            assert(offsets_ok(t));
        }
        let mut i: usize = 0;
        while i < n
            invariant
                t == self@,
                i <= n,
                n == nodes@.len(),
                crate::trie::nodes_view(nodes@) == t.nodes,
                trans_counts_ok(t),
                est_within(t),
                deltas_fit(t),
                gaps_ok(t),
                prios_ok(t),
                offsets_ok(t),
                forall|x: int|
                    0 <= x < i ==> match (#[trigger] t.nodes[x]).levels {
                        Some(r2) => r2.1 < 16,
                        None => true,
                    },
            decreases n - i,
        {
            proof {
                assert(t.nodes[i as int] == nodes@[i as int]@);
            }
            match nodes[i].levels {
                Some(r2) => {
                    if r2.1 > 15 {
                        proof {
                            assert(!lens_ok(t));
                        }
                        return Err(EncodeError::LengthTooLarge);
                    }
                },
                None => {},
            }
            i += 1;
        }
        proof {
            assert(lens_ok(t));
        }
        // Emission: the root address.
        let mut data: Vec<u8> = Vec::new();
        let root = self.root();
        let ra: u64 = addrs[root];
        proof {
            assert(ra == true_addr(t, t.root));
            assert(ra <= 0xFFFF_FFFF);
        }
        data.push(((ra / 0x100_0000) % 256) as u8);
        data.push(((ra / 0x1_0000) % 256) as u8);
        data.push(((ra / 0x100) % 256) as u8);
        data.push((ra % 256) as u8);
        proof {
            assert(data@ =~= be32(true_addr(t, t.root)));
        }
        // Emission: the priority table, one packed byte per entry.
        let ghost hdr = be32(true_addr(t, t.root));
        let mut k: usize = 0;
        while k < ll
            invariant
                t == self@,
                k <= ll,
                ll == levels@.len(),
                crate::trie::lift_levels(levels@) == t.levels,
                gaps_ok(t),
                prios_ok(t),
                hdr == be32(true_addr(t, t.root)),
                data@ == hdr + levels_bytes(t.levels.take(k as int)),
            decreases ll - k,
        {
            let p = levels[k];
            proof {
                assert(t.levels[k as int] == (p.0 as int, p.1 as int));
                assert(p.0 <= 24 && p.1 <= 9);
            }
            let b = (p.0 * 10 + p.1 as usize) as u8;
            data.push(b);
            proof {
                assert(t.levels.take(k as int).push(t.levels[k as int]) =~= t.levels.take(
                    k as int + 1,
                ));
                assert(levels_bytes(t.levels.take(k as int + 1)) =~= levels_bytes(
                    t.levels.take(k as int),
                ).push(b));
                assert(data@ =~= hdr + levels_bytes(t.levels.take(k as int + 1)));
            }
            k += 1;
        }
        proof {
            assert(t.levels.take(t.levels.len() as int) =~= t.levels);
        }
        // Emission: the node records.
        let ghost pre = hdr + levels_bytes(t.levels);
        let mut i: usize = 0;
        while i < n
            invariant
                t == self@,
                i <= n,
                n == nodes@.len(),
                crate::trie::nodes_view(nodes@) == t.nodes,
                trie_wf(t),
                trans_counts_ok(t),
                deltas_fit(t),
                offsets_ok(t),
                lens_ok(t),
                addrs@.len() == n,
                strides@.len() == n,
                forall|k2: int| 0 <= k2 < n ==> addrs@[k2] == true_addr(t, k2),
                forall|k2: int| 0 <= k2 < n ==> #[trigger] addrs@[k2] <= 0xFFFF_FFFF,
                forall|k2: int| 0 <= k2 < n ==> strides@[k2] == node_stride(t, k2),
                pre == hdr + levels_bytes(t.levels),
                hdr == be32(true_addr(t, t.root)),
                data@ == pre + nodes_bytes(t, i as int),
            decreases n - i,
        {
            let ghost base = data@;
            let ghost nm = t.nodes[i as int];
            let ghost st = node_stride(t, i as int);
            proof {
                assert(nm == nodes@[i as int]@);
                assert(node_wf(nm, t.nodes.len() as int));
            }
            let stride = strides[i];
            let tl = nodes[i].trans.len();
            let cnt: usize = if tl >= 31 { 31 } else { tl };
            let haslv: usize = match nodes[i].levels {
                Some(_) => 128,
                None => 0,
            };
            proof {
                assert(stride as int == st);
                assert(1 <= st <= 3) by {
                    lemma_stride_bounds(t, i as int, nm.targets.len() as int);
                }
            }
            let h = (haslv + stride * 32 + cnt) as u8;
            proof {
                assert(h == header_byte(nm, st));
            }
            data.push(h);
            if tl >= 31 {
                proof {
                    assert(tl <= 255);
                }
                data.push(tl as u8);
            }
            proof {
                assert(data@ =~= base + seq![header_byte(nm, st)] + count_ext_bytes(nm));
            }
            let ghost base1 = data@;
            match nodes[i].levels {
                Some(r2) => {
                    proof {
                        assert(nm.levels == Some((r2.0 as int, r2.1 as int)));
                        assert(4 + (r2.0 as int) < 4096);
                        assert(r2.1 < 16);
                    }
                    let off = 4 + r2.0;
                    proof {
                        assert(off / 16 < 256 && off % 16 < 16) by (nonlinear_arith)
                            requires
                                0 <= off < 4096,
                        ;
                    }
                    let b1 = (off / 16) as u8;
                    let b2 = ((off % 16) * 16 + r2.1) as u8;
                    data.push(b1);
                    data.push(b2);
                    proof {
                        assert(seq![b1, b2] =~= node_ref_bytes(nm));
                        assert(data@ =~= base1 + node_ref_bytes(nm));
                    }
                },
                None => {
                    proof {
                        assert(node_ref_bytes(nm) =~= Seq::<u8>::empty());
                        assert(data@ =~= base1 + node_ref_bytes(nm));
                    }
                },
            }
            let ghost base2 = data@;
            let mut j: usize = 0;
            while j < tl
                invariant
                    j <= tl,
                    i < n,
                    n == nodes@.len(),
                    crate::trie::nodes_view(nodes@) == t.nodes,
                    nm == t.nodes[i as int],
                    tl as int == nm.trans.len(),
                    data@ == base2 + nm.trans.take(j as int),
                decreases tl - j,
            {
                proof {
                    assert(nm == nodes@[i as int]@);
                }
                let b = nodes[i].trans[j];
                data.push(b);
                proof {
                    assert(nm.trans.take(j as int).push(nm.trans[j as int]) =~= nm.trans.take(
                        j as int + 1,
                    ));
                    assert(data@ =~= base2 + nm.trans.take(j as int + 1));
                }
                j += 1;
            }
            proof {
                assert(nm.trans.take(nm.trans.len() as int) =~= nm.trans);
            }
            let ghost base3 = data@;
            let ai: u64 = addrs[i];
            let tgl = nodes[i].targets.len();
            proof {
                assert(tgl as int == nm.targets.len());
                assert(ai == true_addr(t, i as int));
            }
            let mut j: usize = 0;
            while j < tgl
                invariant
                    j <= tgl,
                    i < n,
                    n == nodes@.len(),
                    crate::trie::nodes_view(nodes@) == t.nodes,
                    trie_wf(t),
                    deltas_fit(t),
                    nm == t.nodes[i as int],
                    st == node_stride(t, i as int),
                    stride as int == st,
                    1 <= stride <= 3,
                    tgl as int == nm.targets.len(),
                    ai == true_addr(t, i as int),
                    ai <= 0xFFFF_FFFF,
                    addrs@.len() == n,
                    forall|k2: int| 0 <= k2 < n ==> addrs@[k2] == true_addr(t, k2),
                    forall|k2: int| 0 <= k2 < n ==> #[trigger] addrs@[k2] <= 0xFFFF_FFFF,
                    data@ == base3 + deltas_bytes(t, i as int, j as int),
                decreases tgl - j,
            {
                proof {
                    assert(nm == nodes@[i as int]@);
                    assert(node_wf(nm, t.nodes.len() as int));
                }
                let tgt = nodes[i].targets[j];
                proof {
                    assert(nm.targets[j as int] == tgt as int);
                    assert((tgt as int) < t.nodes.len());
                    assert(addrs@[tgt as int] == true_addr(t, tgt as int));
                    assert(node_deltas_fit(t, i as int));
                    lemma_true_delta_fits(t, i as int, j as int);
                }
                let d: i64 = addrs[tgt] as i64 - ai as i64;
                proof {
                    assert(d as int == true_addr(t, tgt as int) - true_addr(t, i as int));
                }
                to_be_bytes(&mut data, d, stride);
                proof {
                    assert(deltas_bytes(t, i as int, j as int + 1) == deltas_bytes(
                        t,
                        i as int,
                        j as int,
                    ) + be_bytes(d as int, st));
                    assert(data@ =~= base3 + deltas_bytes(t, i as int, j as int + 1));
                }
                j += 1;
            }
            proof {
                assert(data@ =~= base + node_bytes(t, i as int));
                assert(nodes_bytes(t, i as int + 1) == nodes_bytes(t, i as int) + node_bytes(
                    t,
                    i as int,
                ));
                assert(data@ =~= pre + nodes_bytes(t, i as int + 1));
            }
            i += 1;
        }
        proof {
            assert(data@ =~= artifact(t));
            assert(encode_m(t) == Ok::<Seq<u8>, EncodeError>(artifact(t)));
        }
        Ok(data)
    }
}

} // verus!
