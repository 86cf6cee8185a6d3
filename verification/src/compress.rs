//! The minimizer: bottom-up structural hash-consing that collapses
//! isomorphic subtrees (identical transitions, canonicalized targets and
//! priority reference) into shared nodes, turning the trie into a DAG.

use vstd::prelude::*;
use crate::trie::{
    NodeM, TrieM, node_wf, nodes_forward, nodes_backward, nodes_wf, levels_ref_ok, trie_wf,
    walk, walk_levels, has_trans, trans_index, pattern_represented,
};

verus! {

/// In-bounds targets: what recursion over the table needs to terminate.
pub open spec fn targets_ok(t: Seq<NodeM>) -> bool {
    forall|i: int, j: int|
        0 <= i < t.len() && 0 <= j < t[i].targets.len()
            ==> 0 <= #[trigger] t[i].targets[j] < t.len()
}

/// The earliest index at or after `k` holding a node equal to `x`, or
/// `new.len()` if there is none.
pub open spec fn find_from(new: Seq<NodeM>, x: NodeM, k: int) -> int
    decreases new.len() - k,
{
    if k < 0 || k >= new.len() {
        new.len() as int
    } else if new[k] == x {
        k
    } else {
        find_from(new, x, k + 1)
    }
}

/// Canonicalizes node `i` of the original table `t` into the canonical table
/// `new`: canonicalize every target first, then look the resulting content up
/// and reuse it, or append it as a fresh canonical node.
pub open spec fn canon_node(t: Seq<NodeM>, i: int, new: Seq<NodeM>) -> (Seq<NodeM>, int)
    decreases t.len() - i, t[i].targets.len() + 1, 0int,
        when targets_ok(t) && nodes_forward(t) && 0 <= i < t.len()
{
    let ct = canon_targets(t, i, 0, new);
    let x = NodeM { trans: t[i].trans, targets: ct.1, levels: t[i].levels };
    let f = find_from(ct.0, x, 0);
    if f < ct.0.len() {
        (ct.0, f)
    } else {
        (ct.0.push(x), ct.0.len() as int)
    }
}

/// Canonicalizes the targets of node `i` from position `j` on, returning the
/// grown canonical table and the canonical indices.
pub open spec fn canon_targets(t: Seq<NodeM>, i: int, j: int, new: Seq<NodeM>) -> (
    Seq<NodeM>,
    Seq<int>,
)
    decreases t.len() - i, t[i].targets.len() - j, 1int,
        when targets_ok(t) && nodes_forward(t) && 0 <= i < t.len() && 0 <= j
{
    if j >= t[i].targets.len() {
        (new, Seq::empty())
    } else {
        let c = canon_node(t, t[i].targets[j], new);
        let r = canon_targets(t, i, j + 1, c.0);
        (r.0, seq![c.1] + r.1)
    }
}

/// Minimization of a whole trie: canonicalize from the root into an empty
/// table. The shared priority table is untouched.
pub open spec fn compress_m(t: TrieM) -> TrieM {
    let r = canon_node(t.nodes, t.root, Seq::empty());
    TrieM { nodes: r.0, root: r.1, levels: t.levels }
}

/// Offsets already checked and refused do not change where the earliest
/// occurrence of `x` lies.
pub(crate) proof fn lemma_find_from_advance(new: Seq<NodeM>, x: NodeM, j: int)
    requires
        0 <= j <= new.len(),
        forall|k: int| 0 <= k < j ==> new[k] != x,
    ensures
        find_from(new, x, 0) == find_from(new, x, j),
    decreases j,
{
    if j > 0 {
        lemma_find_from_advance(new, x, j - 1);
    }
}


// ---------------------------------------------------------------------------
// Minimization preserves the language
// ---------------------------------------------------------------------------

/// Well-formedness of a canonical table: parallel sequences, strictly
/// backward in-bounds targets, distinct transition bytes, valid priority
/// references, and no two equal nodes.
pub open spec fn canon_inv(new: Seq<NodeM>, tbl: int) -> bool {
    &&& forall|k: int|
        0 <= k < new.len() ==> node_wf(#[trigger] new[k], new.len() as int) && levels_ref_ok(
            new[k].levels,
            tbl,
        )
    &&& nodes_backward(new)
    &&& forall|k1: int, k2: int| 0 <= k1 < k2 < new.len() ==> new[k1] != new[k2]
}

/// A walk that starts in bounds stays in bounds.
pub proof fn lemma_walk_in_range(nodes: Seq<NodeM>, i: int, s: Seq<u8>)
    requires
        forall|k: int| 0 <= k < nodes.len() ==> node_wf(#[trigger] nodes[k], nodes.len() as int),
        0 <= i < nodes.len(),
    ensures
        match walk(nodes, i, s) {
            Some(k) => 0 <= k < nodes.len(),
            None => true,
        },
    decreases s.len(),
{
    if s.len() > 0 && has_trans(nodes[i], s[0]) {
        let j = trans_index(nodes[i], s[0]);
        assert(0 <= j < nodes[i].trans.len());
        assert(node_wf(nodes[i], nodes.len() as int));
        lemma_walk_in_range(nodes, nodes[i].targets[j], s.drop_first());
    }
}

/// Extending a backward-pointing table does not change walks from nodes of
/// the existing prefix.
pub proof fn lemma_walk_prefix(a: Seq<NodeM>, b: Seq<NodeM>, i: int, s: Seq<u8>)
    requires
        a.len() <= b.len(),
        forall|k: int| 0 <= k < a.len() ==> a[k] == #[trigger] b[k],
        forall|k: int| 0 <= k < a.len() ==> node_wf(#[trigger] a[k], a.len() as int),
        nodes_backward(a),
        0 <= i < a.len(),
    ensures
        walk(a, i, s) == walk(b, i, s),
        walk_levels(a, i, s) == walk_levels(b, i, s),
        match walk(a, i, s) {
            Some(k) => 0 <= k < a.len(),
            None => true,
        },
    decreases s.len(),
{
    lemma_walk_in_range(a, i, s);
    if s.len() > 0 {
        assert(a[i] == b[i]);
        if has_trans(a[i], s[0]) {
            let j = trans_index(a[i], s[0]);
            assert(0 <= j < a[i].trans.len());
            assert(node_wf(a[i], a.len() as int));
            let tj = a[i].targets[j];
            assert(0 <= tj < a.len());
            lemma_walk_prefix(a, b, tj, s.drop_first());
        }
    } else {
        assert(a[i].levels == b[i].levels);
    }
}

/// Where `find_from` lands: at a node equal to `x`, everything before it
/// differing from `x`; or at the end with no equal node anywhere.
proof fn lemma_find_from_props(new: Seq<NodeM>, x: NodeM, k: int)
    requires
        0 <= k <= new.len(),
    ensures
        k <= find_from(new, x, k) <= new.len(),
        find_from(new, x, k) < new.len() ==> new[find_from(new, x, k)] == x,
        forall|kk: int| k <= kk < find_from(new, x, k) ==> new[kk] != x,
    decreases new.len() - k,
{
    if k < new.len() && new[k] != x {
        lemma_find_from_props(new, x, k + 1);
    }
}

/// The observable language of a canonical node equals that of the original
/// subtree it stands for: the key lemma behind minimization correctness.
pub proof fn lemma_canon_node_ok(t: Seq<NodeM>, i: int, new: Seq<NodeM>, tbl: int)
    requires
        targets_ok(t),
        nodes_forward(t),
        nodes_wf(t, tbl),
        0 <= i < t.len(),
        canon_inv(new, tbl),
    ensures
        ({
            let c = canon_node(t, i, new);
            &&& new.len() <= c.0.len()
            &&& forall|k: int| 0 <= k < new.len() ==> new[k] == #[trigger] c.0[k]
            &&& canon_inv(c.0, tbl)
            &&& 0 <= c.1 < c.0.len()
            &&& forall|s: Seq<u8>| walk_levels(c.0, c.1, s) == walk_levels(t, i, s)
        }),
    decreases t.len() - i, t[i].targets.len() + 1, 0int,
{
    lemma_canon_targets_ok(t, i, 0, new, tbl);
    let ct = canon_targets(t, i, 0, new);
    let x = NodeM { trans: t[i].trans, targets: ct.1, levels: t[i].levels };
    lemma_find_from_props(ct.0, x, 0);
    let f = find_from(ct.0, x, 0);
    assert(node_wf(t[i], t.len() as int));
    assert(x.targets.len() == t[i].targets.len());
    let ext = if f < ct.0.len() {
        ct.0
    } else {
        ct.0.push(x)
    };
    let rr = if f < ct.0.len() {
        f
    } else {
        ct.0.len() as int
    };
    assert(ext[rr] == x);
    // The grown table still satisfies the invariant.
    assert(canon_inv(ext, tbl)) by {
        if f < ct.0.len() {
        } else {
            assert forall|k: int| 0 <= k < ext.len() implies node_wf(
                #[trigger] ext[k],
                ext.len() as int,
            ) && levels_ref_ok(ext[k].levels, tbl) by {
                if k < ct.0.len() {
                    assert(node_wf(ct.0[k], ct.0.len() as int));
                } else {
                    assert(ext[k] == x);
                    assert forall|j: int| 0 <= j < x.targets.len() implies 0 <= #[trigger] x.targets[j]
                        < ext.len() as int by {
                        assert(x.targets[j] == ct.1[j]);
                    }
                }
            }
            assert(nodes_backward(ext)) by {
                assert forall|k: int, j: int|
                    0 <= k < ext.len() && 0 <= j < ext[k].targets.len() implies #[trigger] ext[k].targets[j]
                    < k by {
                    if k < ct.0.len() {
                        assert(nodes_backward(ct.0));
                        assert(ct.0[k].targets[j] < k);
                    } else {
                        assert(ext[k] == x);
                        assert(x.targets[j] == ct.1[j]);
                    }
                }
            }
            assert forall|k1: int, k2: int| 0 <= k1 < k2 < ext.len() implies ext[k1] != ext[k2] by {
                if k2 == ct.0.len() {
                    assert(ext[k1] == ct.0[k1]);
                    assert(ext[k2] == x);
                } else {
                    assert(ext[k1] == ct.0[k1] && ext[k2] == ct.0[k2]);
                }
            }
        }
    }
    // Walking from the canonical node observes exactly the original subtree.
    assert forall|s: Seq<u8>| walk_levels(ext, rr, s) == walk_levels(t, i, s) by {
        if s.len() == 0 {
            assert(walk(ext, rr, s) == Some(rr));
            assert(walk(t, i, s) == Some(i));
            assert(ext[rr].levels == t[i].levels);
        } else {
            let b = s[0];
            assert(ext[rr].trans == t[i].trans);
            if has_trans(t[i], b) {
                assert(has_trans(ext[rr], b));
                let j1 = trans_index(ext[rr], b);
                let j2 = trans_index(t[i], b);
                assert(0 <= j1 < ext[rr].trans.len() && ext[rr].trans[j1] == b);
                assert(0 <= j2 < t[i].trans.len() && t[i].trans[j2] == b);
                assert(j1 == j2);
                assert(ext[rr].targets[j1] == ct.1[j1]);
                assert(0 <= ct.1[j1] < ct.0.len());
                assert(walk_levels(ct.0, ct.1[j1], s.drop_first()) == walk_levels(
                    t,
                    t[i].targets[j1],
                    s.drop_first(),
                ));
                lemma_walk_prefix(ct.0, ext, ct.1[j1], s.drop_first());
                assert(walk(ext, rr, s) == walk(ext, ct.1[j1], s.drop_first()));
                assert(walk(t, i, s) == walk(t, t[i].targets[j1], s.drop_first()));
            } else {
                assert(!has_trans(ext[rr], b));
                assert(walk(ext, rr, s) is None);
                assert(walk(t, i, s) is None);
            }
        }
    }
}

/// Canonicalizing a node's targets, one by one.
pub proof fn lemma_canon_targets_ok(t: Seq<NodeM>, i: int, j: int, new: Seq<NodeM>, tbl: int)
    requires
        targets_ok(t),
        nodes_forward(t),
        nodes_wf(t, tbl),
        0 <= i < t.len(),
        0 <= j <= t[i].targets.len(),
        canon_inv(new, tbl),
    ensures
        ({
            let c = canon_targets(t, i, j, new);
            &&& new.len() <= c.0.len()
            &&& forall|k: int| 0 <= k < new.len() ==> new[k] == #[trigger] c.0[k]
            &&& canon_inv(c.0, tbl)
            &&& c.1.len() == t[i].targets.len() - j
            &&& forall|jj: int| 0 <= jj < c.1.len() ==> 0 <= #[trigger] c.1[jj] < c.0.len()
            &&& forall|jj: int, s: Seq<u8>|
                0 <= jj < c.1.len() ==> #[trigger] walk_levels(c.0, c.1[jj], s) == walk_levels(
                    t,
                    t[i].targets[j + jj],
                    s,
                )
        }),
    decreases t.len() - i, t[i].targets.len() - j, 1int,
{
    if j < t[i].targets.len() {
        let tj = t[i].targets[j];
        assert(0 <= tj < t.len());
        assert(tj > i);
        lemma_canon_node_ok(t, tj, new, tbl);
        let c1 = canon_node(t, tj, new);
        lemma_canon_targets_ok(t, i, j + 1, c1.0, tbl);
        let r = canon_targets(t, i, j + 1, c1.0);
        let c = canon_targets(t, i, j, new);
        assert(c.0 == r.0);
        assert(c.1 == seq![c1.1] + r.1);
        assert(c.1.len() == t[i].targets.len() - j);
        assert forall|jj: int| 0 <= jj < c.1.len() implies 0 <= #[trigger] c.1[jj] < c.0.len() by {
            if jj == 0 {
                assert(c.1[0] == c1.1);
            } else {
                assert(c.1[jj] == r.1[jj - 1]);
            }
        }
        assert forall|jj: int, s: Seq<u8>| 0 <= jj < c.1.len() implies #[trigger] walk_levels(
            c.0,
            c.1[jj],
            s,
        ) == walk_levels(t, t[i].targets[j + jj], s) by {
            if jj == 0 {
                assert(c.1[0] == c1.1);
                assert(walk_levels(c1.0, c1.1, s) == walk_levels(t, tj, s));
                lemma_walk_prefix(c1.0, r.0, c1.1, s);
            } else {
                assert(c.1[jj] == r.1[jj - 1]);
                assert(walk_levels(r.0, r.1[jj - 1], s) == walk_levels(
                    t,
                    t[i].targets[j + 1 + (jj - 1)],
                    s,
                ));
            }
        }
    }
}

/// Minimization preserves the language: walking any byte sequence from the
/// canonical root observes exactly what it observed in the original trie,
/// and the result is a well-formed table whose edges all point backward.
pub proof fn lemma_compress_preserves(t: TrieM)
    requires
        trie_wf(t),
        nodes_forward(t.nodes),
    ensures
        ({
            let c = compress_m(t);
            &&& trie_wf(c)
            &&& nodes_backward(c.nodes)
            &&& c.levels == t.levels
            &&& forall|k1: int, k2: int|
                0 <= k1 < k2 < c.nodes.len() ==> c.nodes[k1] != c.nodes[k2]
            &&& forall|s: Seq<u8>| walk_levels(c.nodes, c.root, s) == walk_levels(
                t.nodes,
                t.root,
                s,
            )
        }),
{
    assert(targets_ok(t.nodes)) by {
        assert forall|i: int, j: int|
            0 <= i < t.nodes.len() && 0 <= j < t.nodes[i].targets.len() implies 0
            <= #[trigger] t.nodes[i].targets[j] < t.nodes.len() by {
            assert(node_wf(t.nodes[i], t.nodes.len() as int));
        }
    }
    assert(canon_inv(Seq::<NodeM>::empty(), t.levels.len() as int));
    lemma_canon_node_ok(t.nodes, t.root, Seq::<NodeM>::empty(), t.levels.len() as int);
}

/// Minimization never alters whether an inserted pattern is represented.
pub proof fn lemma_compress_represents(t: TrieM, p: Seq<u8>)
    requires
        trie_wf(t),
        nodes_forward(t.nodes),
        pattern_represented(t, p),
    ensures
        pattern_represented(compress_m(t), p),
{
    lemma_compress_preserves(t);
    let c = compress_m(t);
    let s = crate::trie::letters_of(p);
    assert(walk_levels(c.nodes, c.root, s) == walk_levels(t.nodes, t.root, s));
    assert(walk(t.nodes, t.root, s) is Some);
    assert(walk(c.nodes, c.root, s) is Some) by {
        if walk(c.nodes, c.root, s) is None {
            assert(walk_levels(c.nodes, c.root, s) is None);
            assert(walk_levels(t.nodes, t.root, s) is Some);
        }
    }
    let k2 = walk(c.nodes, c.root, s)->Some_0;
    assert forall|k: int| 0 <= k < c.nodes.len() implies node_wf(
        #[trigger] c.nodes[k],
        c.nodes.len() as int,
    ) by {}
    lemma_walk_in_range(c.nodes, c.root, s);
    assert(0 <= k2 < c.nodes.len());
    assert(Some(c.nodes[k2].levels) == walk_levels(t.nodes, t.root, s));
}


// ---------------------------------------------------------------------------
// Minimization is a reduction: never more canonical nodes than originals
// ---------------------------------------------------------------------------

/// Bookkeeping of a canonicalization in progress: each original node already
/// canonicalized, its canonical index, and its children canonicalized too,
/// consistently with the canonical table.
pub open spec fn count_inv(t: Seq<NodeM>, new: Seq<NodeM>, m: Map<int, int>) -> bool {
    &&& m.dom().finite()
    &&& forall|k: int|
        #[trigger] m.dom().contains(k) ==> 0 <= k < t.len() && 0 <= m[k] < new.len()
    &&& forall|k: int|
        #[trigger] m.dom().contains(k) ==> new[m[k]].trans == t[k].trans && new[m[k]].levels
            == t[k].levels && new[m[k]].targets.len() == t[k].targets.len()
    &&& forall|k: int, j: int|
        #[trigger] m.dom().contains(k) && 0 <= j < t[k].targets.len() ==> m.dom().contains(
            #[trigger] t[k].targets[j],
        ) && new[m[k]].targets[j] == m[t[k].targets[j]]
}


/// A canonical index's preimage under the bookkeeping map.
pub open spec fn preim(m: Map<int, int>, c: int) -> int {
    choose|k: int| m.dom().contains(k) && m[k] == c
}

/// Every canonical node is the image of some original node.
pub open spec fn count_surj(new_len: int, m: Map<int, int>) -> bool {
    forall|c: int|
        0 <= c < new_len ==> m.dom().contains(#[trigger] preim(m, c)) && m[preim(m, c)] == c
}

/// Two distinct original nodes share one canonical node.
pub open spec fn map_collision(m: Map<int, int>) -> bool {
    exists|k1: int, k2: int|
        k1 != k2 && m.dom().contains(k1) && m.dom().contains(k2) && #[trigger] m[k1]
            == #[trigger] m[k2]
}

/// Canonicalizing one node: every canonical node appended corresponds to a
/// distinct original node canonicalized for the first time, so the canonical
/// table grows by no more than the set of originals covered.
proof fn lemma_canon_node_count(
    t: Seq<NodeM>,
    i: int,
    new: Seq<NodeM>,
    tbl: int,
    m: Map<int, int>,
) -> (m2: Map<int, int>)
    requires
        targets_ok(t),
        nodes_forward(t),
        nodes_wf(t, tbl),
        0 <= i < t.len(),
        canon_inv(new, tbl),
        count_inv(t, new, m),
        new.len() <= m.dom().len(),
        count_surj(new.len() as int, m),
        map_collision(m) ==> new.len() + 1 <= m.dom().len(),
    ensures
        ({
            let c = canon_node(t, i, new);
            &&& count_inv(t, c.0, m2)
            &&& c.0.len() <= m2.dom().len()
            &&& count_surj(c.0.len() as int, m2)
            &&& (map_collision(m2) ==> c.0.len() + 1 <= m2.dom().len())
            &&& (map_collision(m) ==> map_collision(m2))
            &&& forall|k: int|
                #[trigger] m.dom().contains(k) ==> m2.dom().contains(k) && m2[k] == m[k]
            &&& forall|k: int| #[trigger] m2.dom().contains(k) ==> m.dom().contains(k) || k >= i
            &&& m2.dom().contains(i)
            &&& c.1 == m2[i]
            &&& m.dom().len() <= m2.dom().len()
            &&& c.0.len() - new.len() <= m2.dom().len() - m.dom().len()
            &&& (m.dom().contains(i) ==> c.0 == new && m2 == m)
        }),
    decreases t.len() - i, t[i].targets.len() + 1, 0int,
{
    lemma_canon_node_ok(t, i, new, tbl);
    lemma_canon_targets_ok(t, i, 0, new, tbl);
    let ct = canon_targets(t, i, 0, new);
    let mk = lemma_canon_targets_count(t, i, 0, new, tbl, m);
    let x = NodeM { trans: t[i].trans, targets: ct.1, levels: t[i].levels };
    lemma_find_from_props(ct.0, x, 0);
    let f = find_from(ct.0, x, 0);
    assert(node_wf(t[i], t.len() as int));
    if m.dom().contains(i) {
        assert(forall|jj: int|
            0 <= jj < t[i].targets.len() ==> m.dom().contains(#[trigger] t[i].targets[jj]));
        assert(ct.0 == new && mk == m);
        assert(ct.1 == t[i].targets.subrange(0, t[i].targets.len() as int).map_values(
            |tg: int| mk[tg],
        ));
        assert(ct.1.len() == t[i].targets.len());
        assert(x.targets =~= new[m[i]].targets) by {
            assert forall|j: int| 0 <= j < ct.1.len() implies ct.1[j] == new[m[i]].targets[j] by {
                let tgt = t[i].targets[j];
                assert(m.dom().contains(i));
                assert(m.dom().contains(tgt) && new[m[i]].targets[j] == m[tgt]);
                assert(ct.1[j] == mk[t[i].targets.subrange(0, t[i].targets.len() as int)[j]]);
            }
        }
        assert(x =~~= new[m[i]]);
        assert(f == m[i]) by {
            if f < m[i] {
                assert(new[f] == x && new[m[i]] == x);
            } else if f > m[i] {
                assert(new[m[i]] != x);
            }
        }
        assert(canon_node(t, i, new) == (new, f));
        m
    } else if f < ct.0.len() {
        let m2 = mk.insert(i, f);
        assert(!mk.dom().contains(i));
        assert(m2.dom() =~= mk.dom().insert(i));
        vstd::set::axiom_set_insert_len(mk.dom(), i);
        assert(count_inv(t, ct.0, m2)) by {
            assert(ct.0[f] == x);
            assert forall|k: int, j: int|
                #[trigger] m2.dom().contains(k) && 0 <= j < t[k].targets.len() implies m2
                .dom().contains(#[trigger] t[k].targets[j]) && ct.0[m2[k]].targets[j] == m2[t[k].targets[j]] by {
                if k == i {
                    assert(ct.0[f].targets[j] == ct.1[j]);
                    assert(ct.1[j] == mk[t[i].targets.subrange(0, t[i].targets.len() as int)[j]]);
                    assert(ct.1[j] == mk[t[k].targets[j]]);
                    assert(t[k].targets[j] > i);
                } else {
                    assert(mk.dom().contains(k));
                    assert(t[k].targets[j] != i) by {
                        if t[k].targets[j] == i {
                            assert(mk.dom().contains(i));
                        }
                    }
                }
            }
        }
        assert(count_surj(ct.0.len() as int, m2)) by {
            assert forall|c: int| 0 <= c < ct.0.len() implies m2.dom().contains(
                #[trigger] preim(m2, c),
            ) && m2[preim(m2, c)] == c by {
                let k0 = preim(mk, c);
                assert(mk.dom().contains(k0) && mk[k0] == c);
                assert(m2.dom().contains(k0) && m2[k0] == c);
                let kk = preim(m2, c);
                assert(m2.dom().contains(kk) && m2[kk] == c);
            }
        }
        let k0 = preim(mk, f);
        assert(mk.dom().contains(k0) && mk[k0] == f);
        assert(k0 != i);
        assert(map_collision(m2)) by {
            assert(m2[i] == m2[k0]);
        }
        m2
    } else {
        let c0 = ct.0.push(x);
        let m2 = mk.insert(i, ct.0.len() as int);
        assert(!mk.dom().contains(i));
        assert(m2.dom() =~= mk.dom().insert(i));
        vstd::set::axiom_set_insert_len(mk.dom(), i);
        assert(count_inv(t, c0, m2)) by {
            assert(c0[ct.0.len() as int] == x);
            assert forall|k: int|
                #[trigger] m2.dom().contains(k) implies 0 <= k < t.len() && 0 <= m2[k] < c0.len()
                && c0[m2[k]].trans == t[k].trans && c0[m2[k]].levels == t[k].levels
                && c0[m2[k]].targets.len() == t[k].targets.len() by {
                if k != i {
                    assert(mk.dom().contains(k));
                    assert(c0[m2[k]] == ct.0[mk[k]]);
                }
            }
            assert forall|k: int, j: int|
                #[trigger] m2.dom().contains(k) && 0 <= j < t[k].targets.len() implies m2
                .dom().contains(#[trigger] t[k].targets[j]) && c0[m2[k]].targets[j] == m2[t[k].targets[j]] by {
                if k == i {
                    assert(c0[m2[k]].targets[j] == ct.1[j]);
                    assert(ct.1[j] == mk[t[i].targets.subrange(0, t[i].targets.len() as int)[j]]);
                    assert(ct.1[j] == mk[t[k].targets[j]]);
                    assert(t[k].targets[j] > i);
                } else {
                    assert(mk.dom().contains(k));
                    assert(c0[m2[k]] == ct.0[mk[k]]);
                    assert(t[k].targets[j] != i) by {
                        if t[k].targets[j] == i {
                            assert(mk.dom().contains(i));
                        }
                    }
                }
            }
        }
        assert(count_surj(c0.len() as int, m2)) by {
            assert forall|c: int| 0 <= c < c0.len() implies m2.dom().contains(
                #[trigger] preim(m2, c),
            ) && m2[preim(m2, c)] == c by {
                if c < ct.0.len() {
                    let k0 = preim(mk, c);
                    assert(mk.dom().contains(k0) && mk[k0] == c);
                    assert(m2.dom().contains(k0) && m2[k0] == c);
                } else {
                    assert(m2.dom().contains(i) && m2[i] == c);
                }
                let kk = preim(m2, c);
                assert(m2.dom().contains(kk) && m2[kk] == c);
            }
        }
        assert(map_collision(m2) ==> c0.len() + 1 <= m2.dom().len()) by {
            if map_collision(m2) {
                let (k1, k2) = choose|k1: int, k2: int|
                    k1 != k2 && m2.dom().contains(k1) && m2.dom().contains(k2) && #[trigger] m2[k1]
                        == #[trigger] m2[k2];
                assert(k1 != i && k2 != i) by {
                    if k1 == i {
                        assert(mk.dom().contains(k2));
                        assert(0 <= mk[k2] < ct.0.len());
                    }
                    if k2 == i {
                        assert(mk.dom().contains(k1));
                        assert(0 <= mk[k1] < ct.0.len());
                    }
                }
                assert(mk[k1] == mk[k2]);
                assert(map_collision(mk));
            }
        }
        assert(map_collision(m) ==> map_collision(m2)) by {
            if map_collision(m) {
                assert(map_collision(mk));
                let (k1, k2) = choose|k1: int, k2: int|
                    k1 != k2 && mk.dom().contains(k1) && mk.dom().contains(k2) && #[trigger] mk[k1]
                        == #[trigger] mk[k2];
                assert(m2.dom().contains(k1) && m2.dom().contains(k2) && m2[k1] == m2[k2]);
            }
        }
        m2
    }
}

/// Canonicalizing the targets of node `i` from position `j` on.
#[verifier::rlimit(100)]
#[verifier::spinoff_prover]
proof fn lemma_canon_targets_count(
    t: Seq<NodeM>,
    i: int,
    j: int,
    new: Seq<NodeM>,
    tbl: int,
    m: Map<int, int>,
) -> (m2: Map<int, int>)
    requires
        targets_ok(t),
        nodes_forward(t),
        nodes_wf(t, tbl),
        0 <= i < t.len(),
        0 <= j <= t[i].targets.len(),
        canon_inv(new, tbl),
        count_inv(t, new, m),
        new.len() <= m.dom().len(),
        count_surj(new.len() as int, m),
        map_collision(m) ==> new.len() + 1 <= m.dom().len(),
    ensures
        count_inv(t, canon_targets(t, i, j, new).0, m2),
        canon_targets(t, i, j, new).0.len() <= m2.dom().len(),
        count_surj(canon_targets(t, i, j, new).0.len() as int, m2),
        map_collision(m2) ==> canon_targets(t, i, j, new).0.len() + 1 <= m2.dom().len(),
        map_collision(m) ==> map_collision(m2),
        forall|k: int| #[trigger] m.dom().contains(k) ==> m2.dom().contains(k) && m2[k] == m[k],
        forall|k: int| #[trigger] m2.dom().contains(k) ==> m.dom().contains(k) || k > i,
        forall|jj: int|
            j <= jj < t[i].targets.len() ==> m2.dom().contains(#[trigger] t[i].targets[jj]),
        canon_targets(t, i, j, new).1 == t[i].targets.subrange(
            j,
            t[i].targets.len() as int,
        ).map_values(|tg: int| m2[tg]),
        m.dom().len() <= m2.dom().len(),
        canon_targets(t, i, j, new).0.len() - new.len() <= m2.dom().len() - m.dom().len(),
        (forall|jj: int|
            j <= jj < t[i].targets.len() ==> m.dom().contains(#[trigger] t[i].targets[jj]))
            ==> canon_targets(t, i, j, new).0 == new && m2 == m,
    decreases t.len() - i, t[i].targets.len() - j, 1int,
{
    assert(node_wf(t[i], t.len() as int));
    if j < t[i].targets.len() {
        let tj = t[i].targets[j];
        assert(0 <= tj < t.len() && tj > i);
        lemma_canon_node_ok(t, tj, new, tbl);
        let mc = lemma_canon_node_count(t, tj, new, tbl, m);
        let c1 = canon_node(t, tj, new);
        lemma_canon_targets_ok(t, i, j + 1, c1.0, tbl);
        let m2 = lemma_canon_targets_count(t, i, j + 1, c1.0, tbl, mc);
        let r = canon_targets(t, i, j + 1, c1.0);
        let c = canon_targets(t, i, j, new);
        assert(c.0 == r.0 && c.1 == seq![c1.1] + r.1);
        assert forall|jj: int|
            j <= jj < t[i].targets.len() implies m2.dom().contains(
            #[trigger] t[i].targets[jj],
        ) by {
            if jj == j {
                assert(mc.dom().contains(tj));
            }
        }
        assert(c.1 =~= t[i].targets.subrange(j, t[i].targets.len() as int).map_values(
            |tg: int| m2[tg],
        )) by {
            let goal = t[i].targets.subrange(j, t[i].targets.len() as int).map_values(
                |tg: int| m2[tg],
            );
            assert(r.1 == t[i].targets.subrange(j + 1, t[i].targets.len() as int).map_values(
                |tg: int| m2[tg],
            ));
            assert(c1.1 == mc[tj]);
            assert(m2.dom().contains(tj) && m2[tj] == mc[tj]);
            assert forall|jj: int| 0 <= jj < c.1.len() implies c.1[jj] == goal[jj] by {
                if jj == 0 {
                    assert(goal[0] == m2[t[i].targets[j]]);
                } else {
                    assert(c.1[jj] == r.1[jj - 1]);
                    assert(goal[jj] == m2[t[i].targets[j + jj]]);
                    assert(r.1[jj - 1] == m2[t[i].targets.subrange(
                        j + 1,
                        t[i].targets.len() as int,
                    )[jj - 1]]);
                }
            }
        }
        if forall|jj: int|
            j <= jj < t[i].targets.len() ==> m.dom().contains(#[trigger] t[i].targets[jj]) {
            assert(m.dom().contains(tj));
            assert(c1.0 == new && mc == m);
            assert(forall|jj: int|
                j + 1 <= jj < t[i].targets.len() ==> mc.dom().contains(
                    #[trigger] t[i].targets[jj],
                ));
            assert(r.0 == c1.0 && m2 == mc);
        }
        assert(count_inv(t, c.0, m2));
        assert(forall|k: int|
            #[trigger] m.dom().contains(k) ==> m2.dom().contains(k) && m2[k] == m[k]);
        assert forall|k: int| #[trigger] m2.dom().contains(k) implies m.dom().contains(k) || k
            > i by {
            if !m.dom().contains(k) {
                if mc.dom().contains(k) {
                    assert(k >= tj);
                }
            }
        }
        assert(m.dom().len() <= m2.dom().len());
        assert(c.0.len() - new.len() <= m2.dom().len() - m.dom().len());
        assert((forall|jj: int|
            j <= jj < t[i].targets.len() ==> m.dom().contains(#[trigger] t[i].targets[jj]))
            ==> c.0 == new && m2 == m);
        m2
    } else {
        let c = canon_targets(t, i, j, new);
        assert(c.0 == new && c.1 =~= Seq::<int>::empty());
        assert(c.1 =~= t[i].targets.subrange(j, t[i].targets.len() as int).map_values(
            |tg: int| m[tg],
        ));
        assert(count_inv(t, c.0, m));
        assert(c.0.len() - new.len() <= m.dom().len() - m.dom().len());
        m
    }
}


/// Two original nodes root isomorphic subtrees: identical transition bytes,
/// identical priority references, and pairwise isomorphic children. This is
/// the sharing minimization collapses.
pub open spec fn subtree_iso(t: Seq<NodeM>, i1: int, i2: int) -> bool
    decreases t.len() - i1,
        when targets_ok(t) && nodes_forward(t) && 0 <= i1 < t.len() && 0 <= i2 < t.len()
{
    &&& t[i1].trans == t[i2].trans
    &&& t[i1].levels == t[i2].levels
    &&& t[i1].targets.len() == t[i2].targets.len()
    &&& forall|j: int|
        0 <= j < t[i1].targets.len() ==> subtree_iso(
            t,
            #[trigger] t[i1].targets[j],
            t[i2].targets[j],
        )
}

/// Isomorphic subtrees canonicalize to one shared node.
proof fn lemma_iso_same_image(t: Seq<NodeM>, k1: int, k2: int, new: Seq<NodeM>, m: Map<int, int>)
    requires
        targets_ok(t),
        nodes_forward(t),
        0 <= k1 < t.len(),
        0 <= k2 < t.len(),
        count_inv(t, new, m),
        forall|a: int, b: int| 0 <= a < b < new.len() ==> new[a] != new[b],
        m.dom().contains(k1),
        m.dom().contains(k2),
        subtree_iso(t, k1, k2),
    ensures
        m[k1] == m[k2],
    decreases t.len() - k1,
{
    let n1 = new[m[k1]];
    let n2 = new[m[k2]];
    assert(n1.targets.len() == t[k1].targets.len());
    assert(n2.targets.len() == t[k2].targets.len());
    assert(n1.targets =~= n2.targets) by {
        assert forall|j: int| 0 <= j < n1.targets.len() implies n1.targets[j] == n2.targets[j] by {
            let c1 = t[k1].targets[j];
            let c2 = t[k2].targets[j];
            assert(subtree_iso(t, c1, c2));
            assert(m.dom().contains(c1) && m.dom().contains(c2));
            assert(c1 > k1);
            lemma_iso_same_image(t, c1, c2, new, m);
            assert(n1.targets[j] == m[c1] && n2.targets[j] == m[c2]);
        }
    }
    assert(n1 =~~= n2);
    if m[k1] < m[k2] {
        assert(new[m[k1]] != new[m[k2]]);
        assert(false);
    } else if m[k2] < m[k1] {
        assert(new[m[k2]] != new[m[k1]]);
        assert(false);
    }
}

/// The "only when" half of minimization being a true reduction: if the
/// minimized table is exactly as large as the original trie, then no two
/// distinct original nodes root isomorphic subtrees. (Contrapositive: any
/// genuine sharing makes the minimized table strictly smaller.)
pub proof fn lemma_compress_minimal(t: TrieM, k1: int, k2: int)
    requires
        trie_wf(t),
        nodes_forward(t.nodes),
        compress_m(t).nodes.len() == t.nodes.len(),
        0 <= k1 < t.nodes.len(),
        0 <= k2 < t.nodes.len(),
        k1 != k2,
    ensures
        !subtree_iso(t.nodes, k1, k2),
{
    assert(targets_ok(t.nodes)) by {
        assert forall|i: int, j: int|
            0 <= i < t.nodes.len() && 0 <= j < t.nodes[i].targets.len() implies 0
            <= #[trigger] t.nodes[i].targets[j] < t.nodes.len() by {
            assert(node_wf(t.nodes[i], t.nodes.len() as int));
        }
    }
    let tbl = t.levels.len() as int;
    let m0 = Map::<int, int>::empty();
    assert(m0.dom() =~= Set::<int>::empty());
    assert(!map_collision(m0)) by {
        if map_collision(m0) {
            let (a, b) = choose|a: int, b: int|
                a != b && m0.dom().contains(a) && m0.dom().contains(b) && #[trigger] m0[a]
                    == #[trigger] m0[b];
            assert(false);
        }
    }
    assert(count_inv(t.nodes, Seq::<NodeM>::empty(), m0));
    assert(canon_inv(Seq::<NodeM>::empty(), tbl));
    lemma_canon_node_ok(t.nodes, t.root, Seq::<NodeM>::empty(), tbl);
    let m2 = lemma_canon_node_count(t.nodes, t.root, Seq::<NodeM>::empty(), tbl, m0);
    let c = canon_node(t.nodes, t.root, Seq::<NodeM>::empty());
    let n = t.nodes.len() as int;
    assert(c.0.len() == n);
    let rng = vstd::set_lib::set_int_range(0, n);
    vstd::set_lib::lemma_int_range(0, n);
    assert(m2.dom().subset_of(rng)) by {
        assert forall|k: int| m2.dom().contains(k) implies rng.contains(k) by {}
    }
    vstd::set_lib::lemma_len_subset(m2.dom(), rng);
    assert(m2.dom().len() == n);
    assert(m2.dom().contains(k1)) by {
        if !m2.dom().contains(k1) {
            m2.dom().lemma_subset_not_in_lt(rng, k1);
        }
    }
    assert(m2.dom().contains(k2)) by {
        if !m2.dom().contains(k2) {
            m2.dom().lemma_subset_not_in_lt(rng, k2);
        }
    }
    if subtree_iso(t.nodes, k1, k2) {
        lemma_iso_same_image(t.nodes, k1, k2, c.0, m2);
        assert(map_collision(m2)) by {
            assert(m2[k1] == m2[k2]);
        }
        assert(c.0.len() + 1 <= m2.dom().len());
        assert(false);
    }
}

/// Minimization is a reduction: the canonical table never holds more nodes
/// than the original trie. (Each canonical node is the image of a distinct
/// original node, and those form a subset of the original table.)
pub proof fn lemma_compress_reduces(t: TrieM)
    requires
        trie_wf(t),
        nodes_forward(t.nodes),
    ensures
        compress_m(t).nodes.len() <= t.nodes.len(),
{
    assert(targets_ok(t.nodes)) by {
        assert forall|i: int, j: int|
            0 <= i < t.nodes.len() && 0 <= j < t.nodes[i].targets.len() implies 0
            <= #[trigger] t.nodes[i].targets[j] < t.nodes.len() by {
            assert(node_wf(t.nodes[i], t.nodes.len() as int));
        }
    }
    let m0 = Map::<int, int>::empty();
    assert(m0.dom() =~= Set::<int>::empty());
    assert(!map_collision(m0)) by {
        if map_collision(m0) {
            let (a, b) = choose|a: int, b: int|
                a != b && m0.dom().contains(a) && m0.dom().contains(b) && #[trigger] m0[a]
                    == #[trigger] m0[b];
            assert(false);
        }
    }
    assert(count_inv(t.nodes, Seq::<NodeM>::empty(), m0));
    assert(canon_inv(Seq::<NodeM>::empty(), t.levels.len() as int));
    let m2 = lemma_canon_node_count(t.nodes, t.root, Seq::<NodeM>::empty(), t.levels.len() as int, m0);
    let c = canon_node(t.nodes, t.root, Seq::<NodeM>::empty());
    assert(c.0.len() <= m2.dom().len());
    let rng = vstd::set_lib::set_int_range(0, t.nodes.len() as int);
    vstd::set_lib::lemma_int_range(0, t.nodes.len() as int);
    assert(m2.dom().subset_of(rng)) by {
        assert forall|k: int| m2.dom().contains(k) implies rng.contains(k) by {}
    }
    vstd::set_lib::lemma_len_subset(m2.dom(), rng);
}

} // verus!
