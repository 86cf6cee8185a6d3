use hyphen_trie::encode::{how_many_bytes, to_be_bytes, EncodeError};
use hyphen_trie::trie::TrieBuilder;

#[test]
fn stride_choice() {
    assert_eq!(how_many_bytes(0), Ok(1));
    assert_eq!(how_many_bytes(127), Ok(1));
    assert_eq!(how_many_bytes(-128), Ok(1));
    assert_eq!(how_many_bytes(128), Ok(2));
    assert_eq!(how_many_bytes(-129), Ok(2));
    assert_eq!(how_many_bytes(32767), Ok(2));
    assert_eq!(how_many_bytes(32768), Ok(3));
    assert_eq!(how_many_bytes(8388607), Ok(3));
    assert_eq!(how_many_bytes(-8388608), Ok(3));
    assert_eq!(how_many_bytes(8388608), Err(EncodeError::DeltaTooLarge));
    assert_eq!(how_many_bytes(-8388609), Err(EncodeError::DeltaTooLarge));
}

#[test]
fn delta_byte_forms() {
    let mut buf: Vec<u8> = Vec::new();
    to_be_bytes(&mut buf, -2, 1);
    assert_eq!(buf, vec![0xFE]);
    let mut buf: Vec<u8> = Vec::new();
    to_be_bytes(&mut buf, -2, 2);
    assert_eq!(buf, vec![0xFF, 0xFE]);
    let mut buf: Vec<u8> = Vec::new();
    // three-byte deltas are biased by 2^23, not two's complement.
    to_be_bytes(&mut buf, -2, 3);
    assert_eq!(buf, vec![0x7F, 0xFF, 0xFE]);
    let mut buf: Vec<u8> = Vec::new();
    to_be_bytes(&mut buf, 300, 2);
    assert_eq!(buf, vec![0x01, 0x2C]);
}

#[test]
fn artifact_bytes_single_pattern() {
    let mut b = TrieBuilder::new();
    b.insert(b"a1");
    let data = b.encode().unwrap();
    // root addr 5; table [11]; root: header 33, 'a', delta 3;
    // terminal: header 160, reference (4, 1) packed as 0x00 0x41.
    assert_eq!(data, vec![0, 0, 0, 5, 11, 33, 97, 3, 160, 0, 65]);
}

#[test]
fn artifact_bytes_after_compress() {
    let mut b = TrieBuilder::new();
    b.insert(b"a1");
    b.compress();
    let data = b.encode().unwrap();
    // children precede parents after minimization: the root moves to the
    // end and its delta points backward.
    assert_eq!(data, vec![0, 0, 0, 8, 11, 160, 0, 65, 33, 97, 253]);
}

#[test]
fn sentinel_header_at_31_transitions() {
    let mut letters: Vec<u8> = (b'a'..=b'z').collect();
    letters.extend(b'A'..=b'E');
    assert_eq!(letters.len(), 31);
    let mut b = TrieBuilder::new();
    for &c in &letters {
        b.insert(&[c]);
    }
    let data = b.encode().unwrap();
    assert_eq!(&data[0..4], &[0, 0, 0, 4]);
    // 31 transitions: five count bits are the sentinel, true count follows.
    assert_eq!(data[4] & 31, 31);
    assert_eq!(data[5], 31);
    assert_eq!(data[6], b'a');

    let mut b2 = TrieBuilder::new();
    for &c in &letters[..30] {
        b2.insert(&[c]);
    }
    let data2 = b2.encode().unwrap();
    // 30 transitions: no sentinel, the labels follow the header directly.
    assert_eq!(data2[4] & 31, 30);
    assert_eq!(data2[5], b'a');
}

#[test]
fn gap_limit_is_fatal() {
    let mut b = TrieBuilder::new();
    // 25 letters before the digit: gap 25 exceeds the packed-byte limit 24.
    b.insert(b"abcdefghijklmnopqrstuvwxy1");
    assert_eq!(b.encode(), Err(EncodeError::GapTooLarge));
}

#[test]
fn length_limit_is_fatal() {
    let mut b = TrieBuilder::new();
    // 16 digits: the priority sequence no longer fits 4 bits of length.
    b.insert(b"a1b2c3d4e5f6g7h8i9j1k2l3m4n5o6p7");
    assert_eq!(b.encode(), Err(EncodeError::LengthTooLarge));
}

#[test]
fn offset_limit_is_fatal() {
    let mut b = TrieBuilder::new();
    // Distinct (gap,1)(gap,2)(gap,3) triples never recur in the table, so
    // each insertion appends three entries until an offset passes 4091.
    let mut inserted = 0usize;
    'outer: for g1 in 0..25usize {
        for g2 in 0..25usize {
            for g3 in 0..4usize {
                let mut p: Vec<u8> = Vec::new();
                p.extend(std::iter::repeat(b'a').take(g1));
                p.push(b'1');
                p.extend(std::iter::repeat(b'a').take(g2));
                p.push(b'2');
                p.extend(std::iter::repeat(b'a').take(g3));
                p.push(b'3');
                b.insert(&p);
                inserted += 1;
                if inserted >= 1366 {
                    break 'outer;
                }
            }
        }
    }
    assert!(b.level_count() > 4095);
    assert_eq!(b.encode(), Err(EncodeError::OffsetTooLarge));
}

#[test]
fn delta_limit_is_fatal() {
    let mut b = TrieBuilder::new();
    // A 1.8-million-node chain, then a second root edge: the root's delta
    // to the late child exceeds three signed bytes.
    let chain = vec![b'a'; 1_800_000];
    b.insert(&chain);
    b.insert(b"b");
    assert_eq!(b.encode(), Err(EncodeError::DeltaTooLarge));
}
