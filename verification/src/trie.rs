//! The pattern decoder and trie builder: decodes patterns like `.a1bc2d`
//! into transition bytes and `(gap, priority)` pairs, and inserts them into a
//! byte-labeled trie with a shared priority table.

use vstd::prelude::*;
use crate::compress::{canon_node, canon_targets, compress_m, find_from, targets_ok,
    lemma_find_from_advance};

verus! {

/// Mathematical model of one trie node: ordered distinct transition bytes,
/// a parallel sequence of child indices, and an optional `(offset, length)`
/// reference into the shared priority table.
#[verifier::ext_equal]
pub ghost struct NodeM {
    pub trans: Seq<u8>,
    pub targets: Seq<int>,
    pub levels: Option<(int, int)>,
}

/// Mathematical model of a whole trie: a node table, a root index and the
/// shared priority table of `(gap, priority)` pairs.
#[verifier::ext_equal]
pub ghost struct TrieM {
    pub nodes: Seq<NodeM>,
    pub root: int,
    pub levels: Seq<(int, int)>,
}

pub open spec fn empty_node_m() -> NodeM {
    NodeM { trans: Seq::empty(), targets: Seq::empty(), levels: None }
}

/// The trie a fresh builder starts from: one root node, nothing else.
pub open spec fn initial_trie() -> TrieM {
    TrieM { nodes: seq![empty_node_m()], root: 0, levels: Seq::empty() }
}

/// A priority reference denotes a valid slice of a table of length `tbl`.
pub open spec fn levels_ref_ok(l: Option<(int, int)>, tbl: int) -> bool {
    match l {
        Some(r) => 0 <= r.0 && 0 <= r.1 && r.0 + r.1 <= tbl,
        None => true,
    }
}

/// Well-formedness of one node against a table of `len` nodes: parallel
/// transition/target sequences, in-bounds targets, distinct transition bytes.
pub open spec fn node_wf(n: NodeM, len: int) -> bool {
    &&& n.trans.len() == n.targets.len()
    &&& forall|j: int| 0 <= j < n.targets.len() ==> 0 <= #[trigger] n.targets[j] < len
    &&& forall|j1: int, j2: int|
        0 <= j1 < j2 < n.trans.len() ==> n.trans[j1] != n.trans[j2]
}

pub open spec fn nodes_wf(nodes: Seq<NodeM>, tbl: int) -> bool {
    forall|i: int|
        0 <= i < nodes.len() ==> node_wf(#[trigger] nodes[i], nodes.len() as int)
            && levels_ref_ok(nodes[i].levels, tbl)
}

/// Every transition points strictly forward in the table: the shape the
/// builder produces, and the measure that makes recursion over it terminate.
pub open spec fn nodes_forward(nodes: Seq<NodeM>) -> bool {
    forall|i: int, j: int|
        0 <= i < nodes.len() && 0 <= j < nodes[i].targets.len()
            ==> #[trigger] nodes[i].targets[j] > i
}

/// Every transition points strictly backward: the shape minimization
/// produces, where children precede their parents.
pub open spec fn nodes_backward(nodes: Seq<NodeM>) -> bool {
    forall|i: int, j: int|
        0 <= i < nodes.len() && 0 <= j < nodes[i].targets.len()
            ==> #[trigger] nodes[i].targets[j] < i
}

/// Entries of the priority table are non-negative pairs.
pub open spec fn levels_table_ok(tbl: Seq<(int, int)>) -> bool {
    forall|k: int| 0 <= k < tbl.len() ==> 0 <= (#[trigger] tbl[k]).0 && 0 <= tbl[k].1
}

/// The structural invariant every phase of the pipeline preserves.
pub open spec fn trie_wf(t: TrieM) -> bool {
    &&& 1 <= t.nodes.len()
    &&& 0 <= t.root < t.nodes.len()
    &&& nodes_wf(t.nodes, t.levels.len() as int)
    &&& levels_table_ok(t.levels)
}

// ---------------------------------------------------------------------------
// Pattern decoding
// ---------------------------------------------------------------------------

pub open spec fn is_digit(b: u8) -> bool {
    48 <= b <= 57
}

/// The transition bytes of a pattern: its bytes with the digits removed.
pub open spec fn letters_of(p: Seq<u8>) -> Seq<u8>
    decreases p.len(),
{
    if p.len() == 0 {
        Seq::empty()
    } else if is_digit(p[0]) {
        letters_of(p.drop_first())
    } else {
        seq![p[0]] + letters_of(p.drop_first())
    }
}

/// The `(gap, priority)` pairs of a pattern, `dist` letters having passed
/// since the previous recorded priority.
pub open spec fn levels_from(p: Seq<u8>, dist: int) -> Seq<(int, int)>
    decreases p.len(),
{
    if p.len() == 0 {
        Seq::empty()
    } else if is_digit(p[0]) {
        seq![(dist, p[0] - 48)] + levels_from(p.drop_first(), 0)
    } else {
        levels_from(p.drop_first(), dist + 1)
    }
}

/// The decoded priority sequence of a whole pattern.
pub open spec fn levels_of(p: Seq<u8>) -> Seq<(int, int)> {
    levels_from(p, 0)
}

// ---------------------------------------------------------------------------
// Walking
// ---------------------------------------------------------------------------

pub open spec fn has_trans(n: NodeM, b: u8) -> bool {
    exists|j: int| 0 <= j < n.trans.len() && n.trans[j] == b
}

pub open spec fn trans_index(n: NodeM, b: u8) -> int {
    choose|j: int| 0 <= j < n.trans.len() && n.trans[j] == b
}

/// Follows the transitions labeled by `s` from node `i`; the node reached,
/// or `None` where some byte has no transition.
pub open spec fn walk(nodes: Seq<NodeM>, i: int, s: Seq<u8>) -> Option<int>
    decreases s.len(),
{
    if s.len() == 0 {
        Some(i)
    } else if 0 <= i < nodes.len() && has_trans(nodes[i], s[0]) {
        walk(nodes, nodes[i].targets[trans_index(nodes[i], s[0])], s.drop_first())
    } else {
        None
    }
}

/// The observable outcome of walking `s`: whether a node is reached, and the
/// priority reference it carries. This is what minimization must preserve.
pub open spec fn walk_levels(nodes: Seq<NodeM>, i: int, s: Seq<u8>) -> Option<
    Option<(int, int)>,
> {
    match walk(nodes, i, s) {
        Some(k) => Some(nodes[k].levels),
        None => None,
    }
}

/// The slice of the priority table a reference denotes.
pub open spec fn slice_of(tbl: Seq<(int, int)>, r: (int, int)) -> Seq<(int, int)> {
    tbl.subrange(r.0, r.0 + r.1)
}

/// A pattern is represented by a trie when walking its letters from the root
/// reaches a node whose priority reference decodes to exactly the pattern's
/// `(gap, priority)` sequence.
pub open spec fn pattern_represented(t: TrieM, p: Seq<u8>) -> bool {
    match walk(t.nodes, t.root, letters_of(p)) {
        Some(k) => {
            &&& 0 <= k < t.nodes.len()
            &&& match t.nodes[k].levels {
                Some(r) => slice_of(t.levels, r) == levels_of(p),
                None => false,
            }
        },
        None => false,
    }
}

// ---------------------------------------------------------------------------
// Insertion, as a mathematical function
// ---------------------------------------------------------------------------

/// Allocates a fresh child of `state` reached by `b`.
pub open spec fn add_child(nodes: Seq<NodeM>, state: int, b: u8) -> Seq<NodeM> {
    nodes.update(
        state,
        NodeM {
            trans: nodes[state].trans.push(b),
            targets: nodes[state].targets.push(nodes.len() as int),
            levels: nodes[state].levels,
        },
    ).push(empty_node_m())
}

/// One walk over the pattern bytes: follows or allocates a transition per
/// letter, collects a `(gap, priority)` pair per digit. Returns the final
/// node table, the terminal node, and the collected priority sequence.
pub open spec fn insert_walk(
    nodes: Seq<NodeM>,
    state: int,
    dist: int,
    acc: Seq<(int, int)>,
    p: Seq<u8>,
) -> (Seq<NodeM>, int, Seq<(int, int)>)
    decreases p.len(),
{
    if p.len() == 0 {
        (nodes, state, acc)
    } else {
        let b = p[0];
        if is_digit(b) {
            insert_walk(nodes, state, 0, acc.push((dist, b - 48)), p.drop_first())
        } else if 0 <= state < nodes.len() && has_trans(nodes[state], b) {
            insert_walk(
                nodes,
                nodes[state].targets[trans_index(nodes[state], b)],
                dist + 1,
                acc,
                p.drop_first(),
            )
        } else {
            insert_walk(
                add_child(nodes, state, b),
                nodes.len() as int,
                dist + 1,
                acc,
                p.drop_first(),
            )
        }
    }
}

/// Does `lv` occur as a contiguous slice of `tbl` at offset `off`?
pub open spec fn starts_at(tbl: Seq<(int, int)>, lv: Seq<(int, int)>, off: int) -> bool {
    &&& 0 <= off
    &&& off + lv.len() <= tbl.len()
    &&& forall|k: int| 0 <= k < lv.len() ==> tbl[off + k] == #[trigger] lv[k]
}

/// The earliest offset at or after `off` where `lv` occurs as a contiguous
/// slice of `tbl`, or `tbl.len()` if there is none.
pub open spec fn first_match_from(tbl: Seq<(int, int)>, lv: Seq<(int, int)>, off: int) -> int
    decreases tbl.len() - off,
{
    if off >= tbl.len() {
        tbl.len() as int
    } else if starts_at(tbl, lv, off) {
        off
    } else {
        first_match_from(tbl, lv, off + 1)
    }
}

/// The terminal node an insertion of `p` ends on.
pub open spec fn terminal_of(t: TrieM, p: Seq<u8>) -> int {
    insert_walk(t.nodes, t.root, 0, Seq::empty(), p).1
}

/// Full insertion: walk the pattern, resolve its priority sequence against
/// the shared table by substring reuse (appending only when no contiguous
/// occurrence exists), and attach the reference to the terminal node.
pub open spec fn insert_m(t: TrieM, p: Seq<u8>) -> TrieM {
    let r = insert_walk(t.nodes, t.root, 0, Seq::empty(), p);
    let nodes = r.0;
    let state = r.1;
    let lv = r.2;
    let off = first_match_from(t.levels, lv, 0);
    let tbl = if off == t.levels.len() {
        t.levels + lv
    } else {
        t.levels
    };
    TrieM {
        nodes: nodes.update(
            state,
            NodeM {
                trans: nodes[state].trans,
                targets: nodes[state].targets,
                levels: Some((off, lv.len() as int)),
            },
        ),
        root: t.root,
        levels: tbl,
    }
}

// ---------------------------------------------------------------------------
// Executable builder
// ---------------------------------------------------------------------------

/// A node in the trie.
pub struct Node {
    pub trans: Vec<u8>,
    pub targets: Vec<usize>,
    pub levels: Option<(usize, usize)>,
}

impl View for Node {
    type V = NodeM;

    open spec fn view(&self) -> NodeM {
        NodeM {
            trans: self.trans@,
            targets: targets_view(self.targets@),
            levels: match self.levels {
                Some(r) => Some((r.0 as int, r.1 as int)),
                None => None,
            },
        }
    }
}

/// The model of an executable node table.
pub open spec fn nodes_view(v: Seq<Node>) -> Seq<NodeM> {
    v.map_values(|n: Node| n@)
}

/// The model of an executable target list.
pub open spec fn targets_view(v: Seq<usize>) -> Seq<int> {
    v.map_values(|t: usize| t as int)
}

/// Builds a trie from patterns: a growable node table and the shared
/// priority table.
pub struct TrieBuilder {
    root: usize,
    nodes: Vec<Node>,
    levels: Vec<(usize, u8)>,
}

impl View for TrieBuilder {
    type V = TrieM;

    closed spec fn view(&self) -> TrieM {
        TrieM {
            nodes: nodes_view(self.nodes@),
            root: self.root as int,
            levels: lift_levels(self.levels@),
        }
    }
}

/// Finds the position of `b` among a node's transition bytes.
fn find_trans(trans: &Vec<u8>, b: u8) -> (r: Option<usize>)
    ensures
        match r {
            Some(j) => j < trans@.len() && trans@[j as int] == b,
            None => forall|j: int| 0 <= j < trans@.len() ==> trans@[j] != b,
        },
{
    let mut j: usize = 0;
    while j < trans.len()
        invariant
            j <= trans@.len(),
            forall|k: int| 0 <= k < j ==> trans@[k] != b,
        decreases trans@.len() - j,
    {
        if trans[j] == b {
            return Some(j);
        }
        j += 1;
    }
    None
}

/// Does `lv` occur as a contiguous slice of `tbl` at offset `off`?
fn levels_match(tbl: &Vec<(usize, u8)>, lv: &Vec<(usize, u8)>, off: usize) -> (r: bool)
    requires
        off <= tbl@.len(),
    ensures
        r == starts_at(
            lift_levels(tbl@),
            lift_levels(lv@),
            off as int,
        ),
{
    let ghost tm = lift_levels(tbl@);
    let ghost lm = lift_levels(lv@);
    if lv.len() > tbl.len() - off {
        assert(!starts_at(tm, lm, off as int));
        return false;
    }
    let mut k: usize = 0;
    while k < lv.len()
        invariant
            off + lv@.len() <= tbl@.len(),
            k <= lv@.len(),
            tm == lift_levels(tbl@),
            lm == lift_levels(lv@),
            forall|x: int| 0 <= x < k ==> tm[off + x] == #[trigger] lm[x],
        decreases lv@.len() - k,
    {
        let tl: usize = tbl.len();
        assert(off + k < tl);
        let a = tbl[off + k];
        let b = lv[k];
        if a.0 != b.0 || a.1 != b.1 {
            assert(tm[off + k] != lm[k as int]);
            return false;
        }
        k += 1;
    }
    true
}

/// The lifting of an executable priority sequence to its model.
pub open spec fn lift_levels(s: Seq<(usize, u8)>) -> Seq<(int, int)> {
    s.map_values(|p: (usize, u8)| (p.0 as int, p.1 as int))
}

/// Scanning the table from the front, offsets already checked and refused do
/// not change where the earliest occurrence of `lv` lies.
proof fn lemma_first_match_advance(tbl: Seq<(int, int)>, lv: Seq<(int, int)>, j: int)
    requires
        0 <= j <= tbl.len(),
        forall|x: int| 0 <= x < j ==> !starts_at(tbl, lv, x),
    ensures
        first_match_from(tbl, lv, 0) == first_match_from(tbl, lv, j),
    decreases j,
{
    if j > 0 {
        lemma_first_match_advance(tbl, lv, j - 1);
        assert(!starts_at(tbl, lv, j - 1));
        assert(first_match_from(tbl, lv, j - 1) == first_match_from(tbl, lv, j));
    }
}

impl TrieBuilder {
    /// Create a new trie with just the root node.
    pub fn new() -> (r: Self)
        ensures
            r@ == initial_trie(),
            trie_wf(r@),
            nodes_forward(r@.nodes),
    {
        let mut nodes: Vec<Node> = Vec::new();
        nodes.push(Node { trans: Vec::new(), targets: Vec::new(), levels: None });
        let r = TrieBuilder { root: 0, nodes, levels: Vec::new() };
        proof {
            assert(r@.nodes =~~= initial_trie().nodes);
            assert(r@.levels =~~= initial_trie().levels);
            assert(r@ =~~= initial_trie());
        }
        r
    }

    pub(crate) fn nodes_ref(&self) -> (r: &Vec<Node>)
        ensures
            nodes_view(r@) == self@.nodes,
    {
        &self.nodes
    }

    pub(crate) fn levels_ref(&self) -> (r: &Vec<(usize, u8)>)
        ensures
            lift_levels(r@) == self@.levels,
    {
        &self.levels
    }

    /// The number of nodes in the table.
    pub fn node_count(&self) -> (r: usize)
        ensures
            r == self@.nodes.len(),
    {
        self.nodes.len()
    }

    /// The number of `(gap, priority)` entries in the shared priority table.
    pub fn level_count(&self) -> (r: usize)
        ensures
            r == self@.levels.len(),
    {
        self.levels.len()
    }

    /// The root node index.
    pub fn root(&self) -> (r: usize)
        ensures
            r == self@.root,
    {
        self.root
    }

    /// The priority reference of node `i`.
    pub fn node_levels(&self, i: usize) -> (r: Option<(usize, usize)>)
        requires
            i < self@.nodes.len(),
        ensures
            match r {
                Some(p) => self@.nodes[i as int].levels == Some((p.0 as int, p.1 as int)),
                None => self@.nodes[i as int].levels is None,
            },
    {
        self.nodes[i].levels
    }

    /// The number of outgoing transitions of node `i`.
    pub fn transition_count(&self, i: usize) -> (r: usize)
        requires
            i < self@.nodes.len(),
        ensures
            r == self@.nodes[i as int].trans.len(),
    {
        self.nodes[i].trans.len()
    }

    /// The `(gap, priority)` entry at index `k` of the shared table.
    pub fn level_entry(&self, k: usize) -> (r: (usize, u8))
        requires
            k < self@.levels.len(),
        ensures
            self@.levels[k as int] == (r.0 as int, r.1 as int),
    {
        self.levels[k]
    }

    /// Insert a pattern like `.a1bc2d` into the trie: follow or allocate a
    /// transition per letter, collect a `(gap, priority)` pair per digit,
    /// resolve the collected sequence against the shared priority table by
    /// substring reuse, and attach the reference to the terminal node.
    pub fn insert(&mut self, pattern: &[u8])
        requires
            trie_wf(old(self)@),
            nodes_forward(old(self)@.nodes),
        ensures
            final(self)@ == insert_m(old(self)@, pattern@),
            trie_wf(final(self)@),
            nodes_forward(final(self)@.nodes),
            final(self)@.root == old(self)@.root,
    {
        let ghost t0 = self@;
        let mut state: usize = self.root;
        let mut dist: usize = 0;
        let mut levels: Vec<(usize, u8)> = Vec::new();
        let mut k: usize = 0;
        proof {
            assert(pattern@.skip(0) =~= pattern@);
            assert(lift_levels(levels@) =~= Seq::<(int, int)>::empty());
        }
        while k < pattern.len()
            invariant
                k <= pattern@.len(),
                dist <= k,
                state < self@.nodes.len(),
                1 <= self@.nodes.len(),
                nodes_wf(self@.nodes, t0.levels.len() as int),
                nodes_forward(self@.nodes),
                self@.levels == t0.levels,
                self@.root == t0.root,
                levels_table_ok(t0.levels),
                0 <= t0.root < self@.nodes.len(),
                insert_walk(
                    self@.nodes,
                    state as int,
                    dist as int,
                    lift_levels(levels@),
                    pattern@.skip(k as int),
                ) == insert_walk(t0.nodes, t0.root, 0, Seq::empty(), pattern@),
            decreases pattern@.len() - k,
        {
            let b = pattern[k];
            let ghost rem = pattern@.skip(k as int);
            let ghost nm = self@.nodes;
            let ghost accm = lift_levels(levels@);
            proof {
                assert(rem.len() == pattern@.len() - k);
                assert(rem[0] == pattern@[k as int]);
                assert(rem.drop_first() =~= pattern@.skip(k as int + 1));
            }
            if 48 <= b && b <= 57 {
                levels.push((dist, b - 48));
                proof {
                    assert(lift_levels(levels@) =~= accm.push((dist as int, b - 48)));
                    assert(insert_walk(nm, state as int, dist as int, accm, rem)
                        == insert_walk(
                            nm,
                            state as int,
                            0,
                            accm.push((dist as int, b - 48)),
                            rem.drop_first(),
                        ));
                }
                dist = 0;
            } else {
                let len = self.nodes.len();
                match find_trans(&self.nodes[state].trans, b) {
                    Some(j) => {
                        proof {
                            let n = nm[state as int];
                            assert(n.trans[j as int] == b);
                            assert(has_trans(n, b));
                            let ji = trans_index(n, b);
                            assert(0 <= ji < n.trans.len() && n.trans[ji] == b);
                            assert(node_wf(n, nm.len() as int));
                            assert(ji == j as int);
                            assert(insert_walk(nm, state as int, dist as int, accm, rem)
                                == insert_walk(
                                    nm,
                                    n.targets[j as int],
                                    dist as int + 1,
                                    accm,
                                    rem.drop_first(),
                                ));
                        }
                        state = self.nodes[state].targets[j];
                        dist += 1;
                    },
                    None => {
                        proof {
                            assert(!has_trans(nm[state as int], b));
                        }
                        self.nodes[state].trans.push(b);
                        self.nodes[state].targets.push(len);
                        self.nodes.push(
                            Node { trans: Vec::new(), targets: Vec::new(), levels: None },
                        );
                        proof {
                            let nm2 = self@.nodes;
                            assert(nm2 =~~= add_child(nm, state as int, b));
                            // Well-formedness of the grown table.
                            assert forall|i: int| 0 <= i < nm2.len() implies node_wf(
                                #[trigger] nm2[i],
                                nm2.len() as int,
                            ) && levels_ref_ok(nm2[i].levels, t0.levels.len() as int) by {
                                if i < nm.len() && i != state as int {
                                    assert(nm2[i] == nm[i]);
                                    assert(node_wf(nm[i], nm.len() as int));
                                } else if i == state as int {
                                    let n = nm[state as int];
                                    let n2 = nm2[i];
                                    assert(n2.trans == n.trans.push(b));
                                    assert(n2.targets == n.targets.push(nm.len() as int));
                                    assert(forall|x: int|
                                        0 <= x < n.trans.len() ==> n.trans[x] != b);
                                }
                            }
                            assert(nodes_forward(nm2)) by {
                                assert forall|i: int, j2: int|
                                    0 <= i < nm2.len() && 0 <= j2 < nm2[i].targets.len()
                                    implies #[trigger] nm2[i].targets[j2] > i by {
                                    if i == state as int && j2 == nm[i].targets.len() {
                                        assert(nm2[i].targets[j2] == nm.len() as int);
                                    } else if i < nm.len() {
                                        assert(nm2[i].targets[j2] == nm[i].targets[j2]);
                                    }
                                }
                            }
                            assert(insert_walk(nm, state as int, dist as int, accm, rem)
                                == insert_walk(
                                    add_child(nm, state as int, b),
                                    nm.len() as int,
                                    dist as int + 1,
                                    accm,
                                    rem.drop_first(),
                                ));
                        }
                        state = len;
                        dist += 1;
                    },
                }
            }
            k += 1;
        }
        let ghost r = insert_walk(t0.nodes, t0.root, 0, Seq::empty(), pattern@);
        proof {
            assert(pattern@.skip(k as int) =~= Seq::<u8>::empty());
            assert(insert_walk(
                self@.nodes,
                state as int,
                dist as int,
                lift_levels(levels@),
                Seq::<u8>::empty(),
            ) == (self@.nodes, state as int, lift_levels(levels@)));
            assert(r.0 == self@.nodes && r.1 == state as int && r.2 == lift_levels(levels@));
        }
        let ghost lvm = lift_levels(levels@);
        let ghost nwalked = self@.nodes;
        // Resolve the priority sequence against the shared table.
        let mut offset: usize = 0;
        loop
            invariant
                offset <= self@.levels.len(),
                self@.levels == t0.levels,
                self@.nodes == nwalked,
                self@.root == t0.root,
                forall|x: int| 0 <= x < offset ==> !starts_at(t0.levels, lvm, x),
                lvm == lift_levels(levels@),
            ensures
                offset as int == first_match_from(t0.levels, lvm, 0),
                offset <= t0.levels.len(),
                offset < t0.levels.len() ==> starts_at(t0.levels, lvm, offset as int),
                self@.levels == t0.levels,
                self@.nodes == nwalked,
                self@.root == t0.root,
                lvm == lift_levels(levels@),
            decreases t0.levels.len() - offset,
        {
            if offset >= self.levels.len() {
                proof {
                    lemma_first_match_advance(t0.levels, lvm, offset as int);
                }
                break;
            }
            if levels_match(&self.levels, &levels, offset) {
                proof {
                    lemma_first_match_advance(t0.levels, lvm, offset as int);
                }
                break;
            }
            offset += 1;
        }
        // Append only when no contiguous occurrence exists.
        if offset == self.levels.len() {
            let mut x: usize = 0;
            while x < levels.len()
                invariant
                    x <= levels@.len(),
                    lvm == lift_levels(levels@),
                    self@.levels =~= t0.levels + lvm.take(x as int),
                    self@.nodes == nwalked,
                    self@.root == t0.root,
                decreases levels@.len() - x,
            {
                let ghost prev = self@.levels;
                let e = levels[x];
                self.levels.push(e);
                proof {
                    assert(self@.levels =~= prev.push((e.0 as int, e.1 as int)));
                    assert((e.0 as int, e.1 as int) == lvm[x as int]);
                    assert(prev.push(lvm[x as int]) =~= t0.levels + lvm.take(x as int + 1));
                }
                x += 1;
            }
            proof {
                assert(lvm.take(levels@.len() as int) =~= lvm);
                assert(self@.levels =~= t0.levels + lvm);
            }
        }
        let ghost tbl2 = self@.levels;
        let lvlen = levels.len();
        self.nodes[state].levels = Some((offset, lvlen));
        proof {
            let tfin = final(self)@;
            let tmod = insert_m(t0, pattern@);
            // The executable state matches the model, field by field.
            assert(tfin.nodes =~~= tmod.nodes) by {
                assert(tfin.nodes =~~= nwalked.update(
                    state as int,
                    NodeM {
                        trans: nwalked[state as int].trans,
                        targets: nwalked[state as int].targets,
                        levels: Some((offset as int, lvlen as int)),
                    },
                ));
            }
            assert(tfin.levels =~~= tmod.levels);
            assert(tfin =~~= tmod);
            // The structural invariant is preserved.
            let ref_ok_new = offset as int + lvlen as int <= tbl2.len();
            assert(ref_ok_new) by {
                if offset < t0.levels.len() {
                    assert(starts_at(t0.levels, lvm, offset as int));
                } else {
                    assert(tbl2.len() == t0.levels.len() + lvm.len());
                }
            }
            assert forall|i: int| 0 <= i < tfin.nodes.len() implies node_wf(
                #[trigger] tfin.nodes[i],
                tfin.nodes.len() as int,
            ) && levels_ref_ok(tfin.nodes[i].levels, tbl2.len() as int) by {
                assert(node_wf(nwalked[i], nwalked.len() as int));
                assert(levels_ref_ok(nwalked[i].levels, t0.levels.len() as int));
                assert(tfin.nodes[i].trans == nwalked[i].trans);
                assert(tfin.nodes[i].targets == nwalked[i].targets);
                assert(t0.levels.len() <= tbl2.len());
            }
            assert(nodes_forward(tfin.nodes)) by {
                assert forall|i: int, j2: int|
                    0 <= i < tfin.nodes.len() && 0 <= j2 < tfin.nodes[i].targets.len()
                    implies #[trigger] tfin.nodes[i].targets[j2] > i by {
                    assert(tfin.nodes[i].targets == nwalked[i].targets);
                    assert(nwalked[i].targets[j2] > i);
                }
            }
            assert(levels_table_ok(tbl2)) by {
                assert forall|kk: int| 0 <= kk < tbl2.len() implies 0 <= (
                #[trigger] tbl2[kk]).0 && 0 <= tbl2[kk].1 by {
                    if kk >= t0.levels.len() {
                        assert(tbl2[kk] == lvm[kk - t0.levels.len()]);
                    }
                }
            }
            assert(trie_wf(tfin));
        }
    }

    /// Follows the transitions labeled by `s` from the root.
    pub fn walk_from_root(&self, s: &[u8]) -> (r: Option<usize>)
        requires
            trie_wf(self@),
        ensures
            match r {
                Some(k) => walk(self@.nodes, self@.root, s@) == Some(k as int),
                None => walk(self@.nodes, self@.root, s@) is None,
            },
    {
        let mut state: usize = self.root;
        let mut k: usize = 0;
        proof {
            assert(s@.skip(0) =~= s@);
        }
        while k < s.len()
            invariant
                trie_wf(self@),
                k <= s@.len(),
                state < self@.nodes.len(),
                walk(self@.nodes, self@.root, s@) == walk(
                    self@.nodes,
                    state as int,
                    s@.skip(k as int),
                ),
            decreases s@.len() - k,
        {
            let b = s[k];
            proof {
                assert(s@.skip(k as int).len() == s@.len() - k);
                assert(s@.skip(k as int)[0] == s@[k as int]);
                assert(s@.skip(k as int).drop_first() =~= s@.skip(k as int + 1));
            }
            match find_trans(&self.nodes[state].trans, b) {
                Some(j) => {
                    proof {
                        let n = self@.nodes[state as int];
                        assert(n.trans[j as int] == b);
                        assert(has_trans(n, b));
                        let ji = trans_index(n, b);
                        assert(n.trans[ji] == b);
                        assert(ji == j as int);
                    }
                    state = self.nodes[state].targets[j];
                },
                None => {
                    proof {
                        assert(!has_trans(self@.nodes[state as int], b));
                        assert(walk(self@.nodes, state as int, s@.skip(k as int)) is None);
                    }
                    return None;
                },
            }
            k += 1;
        }
        proof {
            assert(s@.skip(k as int) =~= Seq::<u8>::empty());
        }
        Some(state)
    }
}

fn eq_bytes(a: &Vec<u8>, b: &Vec<u8>) -> (r: bool)
    ensures
        r <==> a@ == b@,
{
    if a.len() != b.len() {
        return false;
    }
    let mut k: usize = 0;
    while k < a.len()
        invariant
            a@.len() == b@.len(),
            k <= a@.len(),
            forall|x: int| 0 <= x < k ==> a@[x] == b@[x],
        decreases a@.len() - k,
    {
        if a[k] != b[k] {
            return false;
        }
        k += 1;
    }
    proof {
        assert(a@ =~= b@);
    }
    true
}

fn eq_targets(a: &Vec<usize>, b: &Vec<usize>) -> (r: bool)
    ensures
        r <==> targets_view(a@) == targets_view(b@),
{
    let ghost am = targets_view(a@);
    let ghost bm = targets_view(b@);
    if a.len() != b.len() {
        proof {
            assert(am.len() != bm.len());
        }
        return false;
    }
    let mut k: usize = 0;
    while k < a.len()
        invariant
            a@.len() == b@.len(),
            k <= a@.len(),
            am == targets_view(a@),
            bm == targets_view(b@),
            forall|x: int| 0 <= x < k ==> a@[x] == b@[x],
        decreases a@.len() - k,
    {
        if a[k] != b[k] {
            proof {
                assert(am[k as int] != bm[k as int]);
            }
            return false;
        }
        k += 1;
    }
    proof {
        assert(am =~= bm);
    }
    true
}

/// Value equality of two nodes, deciding equality of their models.
fn node_eq(a: &Node, b: &Node) -> (r: bool)
    ensures
        r <==> a@ == b@,
{
    let tr = eq_bytes(&a.trans, &b.trans);
    let tg = eq_targets(&a.targets, &b.targets);
    let lv = match (a.levels, b.levels) {
        (None, None) => true,
        (Some(x), Some(y)) => x.0 == y.0 && x.1 == y.1,
        _ => false,
    };
    proof {
        if tr && tg && lv {
            assert(a@ =~= b@);
        }
    }
    tr && tg && lv
}

fn copy_bytes(v: &Vec<u8>) -> (r: Vec<u8>)
    ensures
        r@ == v@,
{
    let mut r: Vec<u8> = Vec::new();
    let mut k: usize = 0;
    while k < v.len()
        invariant
            k <= v@.len(),
            r@ =~= v@.take(k as int),
        decreases v@.len() - k,
    {
        r.push(v[k]);
        proof {
            assert(v@.take(k as int).push(v@[k as int]) =~= v@.take(k as int + 1));
        }
        k += 1;
    }
    proof {
        assert(v@.take(v@.len() as int) =~= v@);
    }
    r
}

impl TrieBuilder {
    /// Recursively canonicalize a node into the growing canonical table.
    fn compress_node(&self, node: usize, new: &mut Vec<Node>) -> (r: usize)
        requires
            targets_ok(self@.nodes),
            nodes_forward(self@.nodes),
            node < self@.nodes.len(),
        ensures
            ({
                let c = canon_node(
                    self@.nodes,
                    node as int,
                    nodes_view(old(new)@),
                );
                &&& nodes_view(final(new)@) == c.0
                &&& r as int == c.1
                &&& r < final(new)@.len()
            }),
        decreases self@.nodes.len() - node,
    {
        let ghost t = self@.nodes;
        let ghost new0 = nodes_view(new@);
        let mut ctargets: Vec<usize> = Vec::new();
        let tlen = self.nodes[node].targets.len();
        proof {
            assert(t[node as int].targets.len() == tlen as int);
        }
        let mut j: usize = 0;
        while j < tlen
            invariant
                targets_ok(t),
                nodes_forward(t),
                self@.nodes == t,
                node < t.len(),
                tlen as int == t[node as int].targets.len(),
                j <= tlen,
                ctargets@.len() == j,
                ({
                    let full = canon_targets(t, node as int, 0, new0);
                    let rem = canon_targets(
                        t,
                        node as int,
                        j as int,
                        nodes_view(new@),
                    );
                    &&& full.0 == rem.0
                    &&& full.1 == targets_view(ctargets@) + rem.1
                }),
            decreases tlen - j,
        {
            let ghost newpre = nodes_view(new@);
            let ghost cpre = targets_view(ctargets@);
            let tj = self.nodes[node].targets[j];
            proof {
                assert(t[node as int].targets[j as int] == tj as int);
                assert((tj as int) < t.len());
            }
            let c = self.compress_node(tj, new);
            ctargets.push(c);
            proof {
                let cc = canon_node(t, tj as int, newpre);
                let rr = canon_targets(t, node as int, j as int + 1, cc.0);
                assert(canon_targets(t, node as int, j as int, newpre)
                    == (rr.0, seq![cc.1] + rr.1));
                assert(targets_view(ctargets@) =~= cpre.push(c as int));
                assert(cpre + (seq![cc.1] + rr.1) =~= cpre.push(cc.1) + rr.1);
            }
            j += 1;
        }
        let ghost full = canon_targets(t, node as int, 0, new0);
        proof {
            assert(canon_targets(t, node as int, tlen as int, nodes_view(new@))
                == (nodes_view(new@), Seq::<int>::empty()));
            assert(full.0 == nodes_view(new@));
            assert(full.1 =~= targets_view(ctargets@));
        }
        let x = Node {
            trans: copy_bytes(&self.nodes[node].trans),
            targets: ctargets,
            levels: self.nodes[node].levels,
        };
        let ghost xm = NodeM { trans: t[node as int].trans, targets: full.1, levels: t[node as int].levels };
        proof {
            assert(x@ =~~= xm);
        }
        let mut f: usize = 0;
        let nl = new.len();
        while f < nl
            invariant
                f <= nl,
                nl == new@.len(),
                x@ == xm,
                targets_ok(t),
                nodes_forward(t),
                self@.nodes == t,
                node < t.len(),
                xm == (NodeM { trans: t[node as int].trans, targets: full.1, levels: t[node as int].levels }),
                full == canon_targets(t, node as int, 0, new0),
                new0 == nodes_view(old(new)@),
                full.0 == nodes_view(new@),
                forall|k: int| 0 <= k < f ==> (#[trigger] new@[k])@ != xm,
            decreases nl - f,
        {
            if node_eq(&new[f], &x) {
                proof {
                    let newm = nodes_view(new@);
                    assert forall|k: int| 0 <= k < f implies newm[k] != xm by {
                        assert(newm[k] == (new@[k])@);
                    }
                    assert(newm[f as int] == (new@[f as int])@);
                    assert(newm[f as int] == xm);
                    lemma_find_from_advance(newm, xm, f as int);
                    assert(find_from(newm, xm, 0) == f as int);
                    assert(canon_node(t, node as int, new0) == (newm, f as int));
                }
                return f;
            }
            f += 1;
        }
        proof {
            let newm = nodes_view(new@);
            assert forall|k: int| 0 <= k < nl implies newm[k] != xm by {
                assert(newm[k] == (new@[k])@);
            }
            lemma_find_from_advance(newm, xm, nl as int);
            assert(find_from(newm, xm, 0) == newm.len());
        }
        new.push(x);
        proof {
            assert(nodes_view(new@) =~~= full.0.push(xm));
            assert(canon_node(t, node as int, new0) == (full.0.push(xm), full.0.len() as int));
        }
        nl
    }

    /// Perform suffix compression on the trie: replace the node table and
    /// root with their canonical images.
    pub fn compress(&mut self)
        requires
            trie_wf(old(self)@),
            nodes_forward(old(self)@.nodes),
        ensures
            final(self)@ == compress_m(old(self)@),
    {
        let ghost t0 = self@;
        proof {
            assert(targets_ok(t0.nodes)) by {
                assert forall|i: int, j: int|
                    0 <= i < t0.nodes.len() && 0 <= j < t0.nodes[i].targets.len()
                    implies 0 <= #[trigger] t0.nodes[i].targets[j] < t0.nodes.len() by {
                    assert(node_wf(t0.nodes[i], t0.nodes.len() as int));
                }
            }
        }
        let mut new: Vec<Node> = Vec::new();
        proof {
            assert(nodes_view(new@) =~= Seq::<NodeM>::empty());
        }
        let root = self.root;
        let r = self.compress_node(root, &mut new);
        self.nodes = new;
        self.root = r;
        proof {
            assert(final(self)@ =~~= compress_m(t0));
        }
    }
}


// ---------------------------------------------------------------------------
// Trie correctness: insertion establishes and preserves representation
// ---------------------------------------------------------------------------

/// Node `b` extends node `a`: transitions and targets only appended, the
/// priority reference untouched.
pub open spec fn node_extends(a: NodeM, b: NodeM) -> bool {
    &&& a.trans.is_prefix_of(b.trans)
    &&& a.targets.is_prefix_of(b.targets)
    &&& b.levels == a.levels
}

/// Walks are unchanged by any rewrite that keeps every node's transitions
/// and targets (such as attaching a priority reference).
proof fn lemma_walk_same_shape(a: Seq<NodeM>, b: Seq<NodeM>, i: int, s: Seq<u8>)
    requires
        a.len() == b.len(),
        forall|k: int|
            0 <= k < a.len() ==> (#[trigger] a[k]).trans == b[k].trans && a[k].targets
                == b[k].targets,
        forall|k: int| 0 <= k < a.len() ==> node_wf(#[trigger] a[k], a.len() as int),
    ensures
        walk(a, i, s) == walk(b, i, s),
    decreases s.len(),
{
    if s.len() > 0 && 0 <= i < a.len() {
        let b0 = s[0];
        assert(has_trans(a[i], b0) == has_trans(b[i], b0)) by {
            if has_trans(a[i], b0) {
                let j = trans_index(a[i], b0);
                assert(b[i].trans[j] == b0);
            }
            if has_trans(b[i], b0) {
                let j = trans_index(b[i], b0);
                assert(a[i].trans[j] == b0);
            }
        }
        if has_trans(a[i], b0) {
            let ja = trans_index(a[i], b0);
            let jb = trans_index(b[i], b0);
            assert(a[i].trans[jb] == b0);
            assert(node_wf(a[i], a.len() as int));
            assert(ja == jb);
            lemma_walk_same_shape(a, b, a[i].targets[ja], s.drop_first());
        }
    }
}

/// A successful walk in a table is reproduced unchanged in any table whose
/// nodes extend it.
proof fn lemma_walk_extends(a: Seq<NodeM>, b: Seq<NodeM>, i: int, s: Seq<u8>)
    requires
        a.len() <= b.len(),
        forall|k: int| 0 <= k < a.len() ==> node_extends(#[trigger] a[k], b[k]),
        forall|k: int| 0 <= k < a.len() ==> node_wf(#[trigger] a[k], a.len() as int),
        forall|k: int| 0 <= k < b.len() ==> node_wf(#[trigger] b[k], b.len() as int),
        0 <= i < a.len(),
    ensures
        walk(a, i, s) is Some ==> walk(b, i, s) == walk(a, i, s),
    decreases s.len(),
{
    if s.len() > 0 && walk(a, i, s) is Some {
        let b0 = s[0];
        assert(has_trans(a[i], b0));
        let ja = trans_index(a[i], b0);
        assert(node_extends(a[i], b[i]));
        assert(b[i].trans[ja] == a[i].trans[ja]);
        assert(has_trans(b[i], b0));
        let jb = trans_index(b[i], b0);
        assert(node_wf(b[i], b.len() as int));
        assert(ja == jb);
        assert(b[i].targets[ja] == a[i].targets[ja]);
        assert(node_wf(a[i], a.len() as int));
        let tj = a[i].targets[ja];
        assert(0 <= tj < a.len());
        lemma_walk_extends(a, b, tj, s.drop_first());
    }
}

/// What one insertion walk does: it grows the table by extension only, it
/// leaves everything strictly below the start state untouched, it collects
/// exactly the pattern's decoded priority sequence, and walking the
/// pattern's letters from the start state in the final table reaches the
/// terminal node.
proof fn lemma_insert_walk_props(
    nodes: Seq<NodeM>,
    state: int,
    dist: int,
    acc: Seq<(int, int)>,
    p: Seq<u8>,
    tbl: int,
)
    requires
        nodes_wf(nodes, tbl),
        nodes_forward(nodes),
        0 <= state < nodes.len(),
    ensures
        ({
            let r = insert_walk(nodes, state, dist, acc, p);
            &&& nodes.len() <= r.0.len()
            &&& nodes_wf(r.0, tbl)
            &&& nodes_forward(r.0)
            &&& 0 <= r.1 < r.0.len()
            &&& r.2 == acc + levels_from(p, dist)
            &&& forall|k: int| 0 <= k < nodes.len() ==> node_extends(#[trigger] nodes[k], r.0[k])
            &&& forall|k: int| 0 <= k < nodes.len() && k < state ==> nodes[k] == #[trigger] r.0[k]
            &&& walk(r.0, state, letters_of(p)) == Some(r.1)
        }),
    decreases p.len(),
{
    let r = insert_walk(nodes, state, dist, acc, p);
    if p.len() == 0 {
        assert(r.2 =~= acc + levels_from(p, dist));
        assert forall|k: int| 0 <= k < nodes.len() implies node_extends(
            #[trigger] nodes[k],
            r.0[k],
        ) by {
            assert(nodes[k].trans.is_prefix_of(nodes[k].trans));
            assert(nodes[k].targets.is_prefix_of(nodes[k].targets));
        }
    } else {
        let b = p[0];
        let rest = p.drop_first();
        if is_digit(b) {
            lemma_insert_walk_props(nodes, state, 0, acc.push((dist, b - 48)), rest, tbl);
            assert(r == insert_walk(nodes, state, 0, acc.push((dist, b - 48)), rest));
            assert(r.2 =~= acc + levels_from(p, dist)) by {
                assert(levels_from(p, dist) == seq![(dist, (b - 48) as int)] + levels_from(
                    rest,
                    0,
                ));
            }
            assert(letters_of(p) == letters_of(rest));
        } else if has_trans(nodes[state], b) {
            let j = trans_index(nodes[state], b);
            assert(node_wf(nodes[state], nodes.len() as int));
            let tgt = nodes[state].targets[j];
            assert(0 <= tgt < nodes.len() && tgt > state);
            lemma_insert_walk_props(nodes, tgt, dist + 1, acc, rest, tbl);
            assert(r == insert_walk(nodes, tgt, dist + 1, acc, rest));
            assert(r.2 =~= acc + levels_from(p, dist)) by {
                assert(levels_from(p, dist) == levels_from(rest, dist + 1));
            }
            // The walk in the final table takes the same first step.
            assert(walk(r.0, state, letters_of(p)) == Some(r.1)) by {
                assert(letters_of(p) == seq![b] + letters_of(rest));
                let ls = letters_of(p);
                assert(ls[0] == b);
                assert(ls.drop_first() =~= letters_of(rest));
                assert(r.0[state] == nodes[state]);
                assert(has_trans(r.0[state], b));
                let j2 = trans_index(r.0[state], b);
                assert(r.0[state].trans[j] == b);
                assert(j2 == j);
                assert(walk(r.0, state, ls) == walk(r.0, tgt, ls.drop_first()));
            }
        } else {
            let nodes2 = add_child(nodes, state, b);
            let fresh = nodes.len() as int;
            // The grown table is well-formed and still points forward.
            assert(nodes_wf(nodes2, tbl)) by {
                assert forall|k: int| 0 <= k < nodes2.len() implies node_wf(
                    #[trigger] nodes2[k],
                    nodes2.len() as int,
                ) && levels_ref_ok(nodes2[k].levels, tbl) by {
                    if k < nodes.len() && k != state {
                        assert(nodes2[k] == nodes[k]);
                        assert(node_wf(nodes[k], nodes.len() as int));
                    } else if k == state {
                        assert(node_wf(nodes[state], nodes.len() as int));
                        assert(forall|x: int|
                            0 <= x < nodes[state].trans.len() ==> nodes[state].trans[x] != b);
                        assert(nodes2[k].trans == nodes[state].trans.push(b));
                        assert(nodes2[k].targets == nodes[state].targets.push(fresh));
                    }
                }
            }
            assert(nodes_forward(nodes2)) by {
                assert forall|k: int, x: int|
                    0 <= k < nodes2.len() && 0 <= x < nodes2[k].targets.len()
                    implies #[trigger] nodes2[k].targets[x] > k by {
                    if k == state && x == nodes[state].targets.len() {
                        assert(nodes2[k].targets[x] == fresh);
                    } else if k < nodes.len() {
                        assert(nodes2[k].targets[x] == nodes[k].targets[x]);
                    }
                }
            }
            lemma_insert_walk_props(nodes2, fresh, dist + 1, acc, rest, tbl);
            assert(r == insert_walk(nodes2, fresh, dist + 1, acc, rest));
            assert(r.2 =~= acc + levels_from(p, dist)) by {
                assert(levels_from(p, dist) == levels_from(rest, dist + 1));
            }
            assert forall|k: int| 0 <= k < nodes.len() implies node_extends(
                #[trigger] nodes[k],
                r.0[k],
            ) by {
                assert(node_extends(nodes2[k], r.0[k]));
                if k != state {
                    assert(nodes2[k] == nodes[k]);
                } else {
                    assert(nodes2[k].trans == nodes[k].trans.push(b));
                    assert(nodes2[k].targets == nodes[k].targets.push(fresh));
                    assert(nodes[k].trans.is_prefix_of(nodes2[k].trans));
                    assert(nodes[k].targets.is_prefix_of(nodes2[k].targets));
                }
            }
            assert(walk(r.0, state, letters_of(p)) == Some(r.1)) by {
                assert(letters_of(p) == seq![b] + letters_of(rest));
                let ls = letters_of(p);
                assert(ls[0] == b);
                assert(ls.drop_first() =~= letters_of(rest));
                assert(state < fresh);
                assert(r.0[state] == nodes2[state]);
                let jn = nodes[state].trans.len() as int;
                assert(r.0[state].trans[jn] == b);
                assert(has_trans(r.0[state], b));
                let j2 = trans_index(r.0[state], b);
                assert(node_wf(nodes2[state], nodes2.len() as int));
                assert(j2 == jn);
                assert(r.0[state].targets[jn] == fresh);
                assert(walk(r.0, state, ls) == walk(r.0, fresh, ls.drop_first()));
            }
        }
    }
}

/// Where the substring-reuse search lands: inside the table only at a real
/// occurrence.
proof fn lemma_first_match_props(tbl: Seq<(int, int)>, lv: Seq<(int, int)>, k: int)
    requires
        0 <= k <= tbl.len(),
    ensures
        k <= first_match_from(tbl, lv, k) <= tbl.len(),
        first_match_from(tbl, lv, k) < tbl.len() ==> starts_at(
            tbl,
            lv,
            first_match_from(tbl, lv, k),
        ),
    decreases tbl.len() - k,
{
    if k < tbl.len() && !starts_at(tbl, lv, k) {
        lemma_first_match_props(tbl, lv, k + 1);
    }
}

/// Resolving a priority sequence against the shared table always yields a
/// reference whose slice is exactly that sequence, and only ever appends.
proof fn lemma_resolved_slice(tbl: Seq<(int, int)>, lv: Seq<(int, int)>)
    ensures
        ({
            let off = first_match_from(tbl, lv, 0);
            let tbl2 = if off == tbl.len() {
                tbl + lv
            } else {
                tbl
            };
            &&& 0 <= off <= tbl.len()
            &&& off + lv.len() <= tbl2.len()
            &&& slice_of(tbl2, (off, lv.len() as int)) == lv
            &&& tbl.len() <= tbl2.len()
            &&& forall|x: int| 0 <= x < tbl.len() ==> tbl[x] == #[trigger] tbl2[x]
        }),
{
    lemma_first_match_props(tbl, lv, 0);
    let off = first_match_from(tbl, lv, 0);
    if off == tbl.len() {
        assert(slice_of(tbl + lv, (off, lv.len() as int)) =~= lv);
    } else {
        assert(starts_at(tbl, lv, off));
        assert(slice_of(tbl, (off, lv.len() as int)) =~= lv);
    }
}

/// Trie correctness: after inserting a pattern, walking the trie by the
/// pattern's letters reaches a node whose decoded priority sequence is
/// exactly the pattern's own `(gap, priority)` sequence.
pub proof fn lemma_insert_represents(t: TrieM, p: Seq<u8>)
    requires
        trie_wf(t),
        nodes_forward(t.nodes),
    ensures
        pattern_represented(insert_m(t, p), p),
        terminal_of(t, p) == walk(insert_m(t, p).nodes, t.root, letters_of(p))->Some_0,
{
    let r = insert_walk(t.nodes, t.root, 0, Seq::empty(), p);
    lemma_insert_walk_props(t.nodes, t.root, 0, Seq::empty(), p, t.levels.len() as int);
    assert(r.2 =~= levels_of(p));
    let t2 = insert_m(t, p);
    lemma_resolved_slice(t.levels, r.2);
    let off = first_match_from(t.levels, r.2, 0);
    assert(t2.nodes.len() == r.0.len());
    assert forall|k: int| 0 <= k < r.0.len() implies (#[trigger] t2.nodes[k]).trans
        == r.0[k].trans && t2.nodes[k].targets == r.0[k].targets by {}
    lemma_walk_same_shape(r.0, t2.nodes, t.root, letters_of(p));
    assert(walk(t2.nodes, t.root, letters_of(p)) == Some(r.1));
    assert(t2.nodes[r.1].levels == Some((off, r.2.len() as int)));
    assert(slice_of(t2.levels, (off, r.2.len() as int)) =~= levels_of(p)) by {
        if off == t.levels.len() {
            assert(t2.levels == t.levels + r.2);
        } else {
            assert(t2.levels == t.levels);
        }
        assert(slice_of(t2.levels, (off, r.2.len() as int)) == r.2);
    }
}

/// Insertion preserves every already-represented pattern, unless the new
/// pattern terminates on the very node that carries the old one's priority
/// reference while decoding to a different sequence: the documented
/// overwrite of duplicate terminals.
pub proof fn lemma_insert_preserves(t: TrieM, p: Seq<u8>, q: Seq<u8>)
    requires
        trie_wf(t),
        nodes_forward(t.nodes),
        pattern_represented(t, q),
        walk(t.nodes, t.root, letters_of(q)) != Some(terminal_of(t, p)) || levels_of(q)
            == levels_of(p),
    ensures
        pattern_represented(insert_m(t, p), q),
{
    let lq = letters_of(q);
    let kq = walk(t.nodes, t.root, lq)->Some_0;
    assert(walk(t.nodes, t.root, lq) == Some(kq));
    let r = insert_walk(t.nodes, t.root, 0, Seq::empty(), p);
    lemma_insert_walk_props(t.nodes, t.root, 0, Seq::empty(), p, t.levels.len() as int);
    lemma_walk_extends(t.nodes, r.0, t.root, lq);
    assert(walk(r.0, t.root, lq) == Some(kq));
    let t2 = insert_m(t, p);
    assert forall|k: int| 0 <= k < r.0.len() implies (#[trigger] t2.nodes[k]).trans
        == r.0[k].trans && t2.nodes[k].targets == r.0[k].targets by {}
    lemma_walk_same_shape(r.0, t2.nodes, t.root, lq);
    assert(walk(t2.nodes, t.root, lq) == Some(kq));
    lemma_resolved_slice(t.levels, r.2);
    assert(r.2 =~= levels_of(p));
    let off = first_match_from(t.levels, r.2, 0);
    if kq == r.1 {
        assert(levels_of(q) == levels_of(p));
        assert(t2.nodes[kq].levels == Some((off, r.2.len() as int)));
        assert(slice_of(t2.levels, (off, r.2.len() as int)) == r.2);
    } else {
        assert(t2.nodes[kq] == r.0[kq]);
        assert(node_extends(t.nodes[kq], r.0[kq]));
        assert(t2.nodes[kq].levels == t.nodes[kq].levels);
        let rq = t.nodes[kq].levels->Some_0;
        assert(levels_ref_ok(t.nodes[kq].levels, t.levels.len() as int));
        assert(slice_of(t2.levels, rq) =~= slice_of(t.levels, rq));
    }
}

} // verus!

