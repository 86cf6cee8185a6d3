//! Compiles Knuth-Liang hyphenation patterns into a minimized,
//! pointer-compact binary automaton.
//!
//! The pipeline is: decode a pattern into transition bytes and
//! `(gap, priority)` pairs, insert it into a byte-labeled trie with a shared
//! priority table, collapse isomorphic subtrees into a DAG, and serialize the
//! result with per-node minimal pointer strides.

use vstd::prelude::*;

pub mod compress;
pub mod encode;
pub mod scan;
pub mod trie;

use crate::compress::compress_m;
use crate::compress::lemma_compress_preserves;
use crate::encode::{encode_m, EncodeError};
use crate::scan::{parse, scan_tokens};
use crate::trie::{initial_trie, insert_m, nodes_forward, trie_wf, TrieBuilder, TrieM};

verus! {

/// The trie that inserting a list of patterns, in order, into a fresh
/// builder produces.
pub open spec fn insert_all(t: TrieM, pats: Seq<Seq<u8>>) -> TrieM
    decreases pats.len(),
{
    if pats.len() == 0 {
        t
    } else {
        insert_all(insert_m(t, pats[0]), pats.drop_first())
    }
}

/// What building a pattern list yields: the artifact of the minimized trie,
/// or the first size limit it violates.
pub open spec fn build_m(pats: Seq<Seq<u8>>) -> Result<Seq<u8>, EncodeError> {
    encode_m(compress_m(insert_all(initial_trie(), pats)))
}

/// The models of a list of executable patterns.
pub open spec fn lift_pats(v: Seq<Vec<u8>>) -> Seq<Seq<u8>> {
    v.map_values(|p: Vec<u8>| p@)
}

proof fn lemma_insert_all_snoc(t0: TrieM, ps: Seq<Seq<u8>>, k: int)
    requires
        0 <= k < ps.len(),
    ensures
        insert_all(t0, ps.take(k + 1)) == insert_m(insert_all(t0, ps.take(k)), ps[k]),
    decreases k,
{
    if k == 0 {
        assert(ps.take(1).drop_first() =~= Seq::<Seq<u8>>::empty());
        assert(ps.take(1)[0] == ps[0]);
        assert(ps.take(0) =~= Seq::<Seq<u8>>::empty());
        assert(ps.take(1).len() == 1);
        assert(insert_all(t0, ps.take(1)) == insert_all(
            insert_m(t0, ps[0]),
            ps.take(1).drop_first(),
        ));
        assert(insert_all(insert_m(t0, ps[0]), Seq::<Seq<u8>>::empty()) == insert_m(t0, ps[0]));
        assert(insert_all(t0, ps.take(0)) == t0);
    } else {
        let t1 = insert_m(t0, ps[0]);
        let tail = ps.drop_first();
        lemma_insert_all_snoc(t1, tail, k - 1);
        assert(ps.take(k + 1)[0] == ps[0]);
        assert(ps.take(k)[0] == ps[0]);
        assert(ps.take(k + 1).drop_first() =~= tail.take(k));
        assert(ps.take(k).drop_first() =~= tail.take(k - 1));
        assert(tail[k - 1] == ps[k]);
        assert(insert_all(t0, ps.take(k + 1)) == insert_all(t1, tail.take(k)));
        assert(insert_all(t0, ps.take(k)) == insert_all(t1, tail.take(k - 1)));
        assert(insert_all(t1, tail.take(k)) == insert_m(insert_all(t1, tail.take(k - 1)), tail[k - 1]));
    }
}

/// Determinism: the artifact is a function of the pattern list alone, so
/// two builds over element-wise equal pattern lists yield byte-identical
/// results. The executable builder's contract pins its output to `build_m`.
pub proof fn lemma_build_deterministic(p1: Seq<Seq<u8>>, p2: Seq<Seq<u8>>)
    requires
        p1.len() == p2.len(),
        forall|i: int| 0 <= i < p1.len() ==> #[trigger] p1[i] == p2[i],
    ensures
        build_m(p1) == build_m(p2),
{
    assert(p1 =~= p2);
}

/// Build an encoded trie from a decoded pattern list: insert every pattern
/// in order, minimize, and serialize.
pub fn build_from_patterns(pats: &Vec<Vec<u8>>) -> (r: Result<Vec<u8>, EncodeError>)
    ensures
        match r {
            Ok(v) => build_m(lift_pats(pats@)) == Ok::<Seq<u8>, EncodeError>(v@),
            Err(e) => build_m(lift_pats(pats@)) == Err::<Seq<u8>, EncodeError>(e),
        },
{
    let ghost ps = lift_pats(pats@);
    let mut builder = TrieBuilder::new();
    proof {
        assert(ps.take(0) =~= Seq::<Seq<u8>>::empty());
    }
    let mut i: usize = 0;
    while i < pats.len()
        invariant
            i <= pats@.len(),
            ps == lift_pats(pats@),
            trie_wf(builder@),
            nodes_forward(builder@.nodes),
            builder@ == insert_all(initial_trie(), ps.take(i as int)),
        decreases pats@.len() - i,
    {
        proof {
            assert(ps[i as int] == pats@[i as int]@);
        }
        builder.insert(pats[i].as_slice());
        proof {
            lemma_insert_all_snoc(initial_trie(), ps, i as int);
        }
        i += 1;
    }
    proof {
        assert(ps.take(ps.len() as int) =~= ps);
        lemma_compress_preserves(builder@);
    }
    builder.compress();
    builder.encode()
}

/// Generate an encoded trie from a pattern source file: scan the
/// `\patterns{ ... }` blocks and build from exactly the tokens found, in
/// textual order. The artifact is a function of the file bytes alone.
pub fn build_trie(tex: &[u8]) -> (r: Result<Vec<u8>, EncodeError>)
    ensures
        match r {
            Ok(v) => build_m(scan_tokens(tex@)) == Ok::<Seq<u8>, EncodeError>(v@),
            Err(e) => build_m(scan_tokens(tex@)) == Err::<Seq<u8>, EncodeError>(e),
        },
{
    let pats = parse(tex);
    let r = build_from_patterns(&pats);
    proof {
        assert(lift_pats(pats@) == scan_tokens(tex@));
    }
    r
}

/// Comments, whitespace and text outside the pattern blocks do not influence
/// the artifact: two files that scan to the same tokens build identical
/// results. (That one file builds the same bytes on every run is the ensures
/// of `build_trie` itself: its result is pinned to `build_m(scan_tokens(..))`.)
pub proof fn lemma_build_trie_deterministic(t1: Seq<u8>, t2: Seq<u8>)
    requires
        scan_tokens(t1) == scan_tokens(t2),
    ensures
        build_m(scan_tokens(t1)) == build_m(scan_tokens(t2)),
{
}

} // verus!
