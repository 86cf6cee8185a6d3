use hyphen_trie::trie::TrieBuilder;

#[test]
fn shared_prefix_two_terminals() {
    let mut b = TrieBuilder::new();
    b.insert(b".ab1c");
    b.insert(b".ab2d");
    // root + '.' + 'a' + 'b' + 'c' + 'd': the `.ab` prefix is shared.
    assert_eq!(b.node_count(), 6);
    // no substring overlap between [(2,1)] and [(2,2)]: both pairs stored.
    assert_eq!(b.level_count(), 2);
    // the gap counts every non-digit byte walked, the leading `.` included.
    assert_eq!(b.level_entry(0), (3, 1));
    assert_eq!(b.level_entry(1), (3, 2));
    let t1 = b.walk_from_root(b".abc").unwrap();
    let t2 = b.walk_from_root(b".abd").unwrap();
    assert_ne!(t1, t2);
    assert_eq!(b.node_levels(t1), Some((0, 1)));
    assert_eq!(b.node_levels(t2), Some((1, 1)));
    assert!(b.walk_from_root(b".ab").is_some());
    assert!(b.walk_from_root(b".abe").is_none());
}

#[test]
fn duplicate_pattern_no_growth() {
    let mut b = TrieBuilder::new();
    b.insert(b".a1b2c");
    let n1 = b.node_count();
    let l1 = b.level_count();
    assert_eq!(n1, 5);
    assert_eq!(l1, 2);
    b.insert(b".a1b2c");
    assert_eq!(b.node_count(), n1);
    assert_eq!(b.level_count(), l1);
    b.compress();
    // every node on the chain is distinct: minimization changes nothing.
    assert_eq!(b.node_count(), 5);
    let t = b.walk_from_root(b".abc").unwrap();
    assert_eq!(b.node_levels(t), Some((0, 2)));
    assert_eq!(b.level_entry(0), (2, 1));
    assert_eq!(b.level_entry(1), (1, 2));
}

#[test]
fn compress_shares_suffixes() {
    let mut b = TrieBuilder::new();
    b.insert(b"ab1");
    b.insert(b"cb1");
    assert_eq!(b.node_count(), 5);
    // identical priority sequences share one table entry.
    assert_eq!(b.level_count(), 1);
    b.compress();
    // the two `b` terminals merge, then the two middle nodes merge.
    assert_eq!(b.node_count(), 3);
    let t1 = b.walk_from_root(b"ab").unwrap();
    let t2 = b.walk_from_root(b"cb").unwrap();
    assert_eq!(t1, t2);
    assert_eq!(b.node_levels(t1), Some((0, 1)));
    assert_eq!(b.level_entry(0), (2, 1));
}

#[test]
fn priority_table_substring_reuse() {
    let mut b = TrieBuilder::new();
    b.insert(b"a1b2c");
    assert_eq!(b.level_count(), 2);
    // [(1,2)] occurs inside [(1,1),(1,2)] at offset 1: reused, not appended.
    b.insert(b"x1y");
    assert_eq!(b.level_count(), 2);
    let t = b.walk_from_root(b"xy").unwrap();
    assert_eq!(b.node_levels(t), Some((0, 1)));
    // [(2,3)] occurs nowhere: appended.
    b.insert(b"pq3r");
    assert_eq!(b.level_count(), 3);
    let t2 = b.walk_from_root(b"pqr").unwrap();
    assert_eq!(b.node_levels(t2), Some((2, 1)));
}

#[test]
fn determinism_same_patterns() {
    let build = |pats: &[&[u8]]| {
        let mut b = TrieBuilder::new();
        for p in pats {
            b.insert(p);
        }
        b.compress();
        b.encode().unwrap()
    };
    let pats: &[&[u8]] = &[b".ab1c", b".ab2d", b"a1", b"xy2z", b".a1b2c"];
    let first = build(pats);
    let second = build(pats);
    assert_eq!(first, second);
}

#[test]
fn walk_empty_reaches_root() {
    let b = TrieBuilder::new();
    assert_eq!(b.walk_from_root(b""), Some(0));
    assert_eq!(b.node_count(), 1);
    assert_eq!(b.level_count(), 0);
    assert_eq!(b.root(), 0);
    assert_eq!(b.transition_count(0), 0);
    assert_eq!(b.node_levels(0), None);
}

#[test]
fn digit_only_pattern_marks_root() {
    let mut b = TrieBuilder::new();
    b.insert(b"1");
    assert_eq!(b.node_count(), 1);
    assert_eq!(b.node_levels(0), Some((0, 1)));
    assert_eq!(b.level_entry(0), (0, 1));
}

#[test]
fn empty_pattern_list_builds_bare_root() {
    let data = hyphen_trie::build_from_patterns(&Vec::new()).unwrap();
    // root address 4, empty priority table, one empty node record.
    assert_eq!(data, vec![0, 0, 0, 4, 32]);
}

#[test]
fn reuse_searches_existing_table_only() {
    let mut b = TrieBuilder::new();
    b.insert(b"a1");
    assert_eq!(b.level_count(), 1);
    // [(1,1),(1,1)] does not fit inside the existing [(1,1)], so it is
    // appended whole at offset 1, though the final table holds it at 0 too.
    b.insert(b"x1y1");
    assert_eq!(b.level_count(), 3);
    let t = b.walk_from_root(b"xy").unwrap();
    assert_eq!(b.node_levels(t), Some((1, 2)));
}
