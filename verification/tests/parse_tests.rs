use hyphen_trie::build_trie;
use hyphen_trie::scan::parse;
use hyphen_trie::trie::TrieBuilder;

#[test]
fn parse_extracts_tokens() {
    let src = b"% comment\n\\patterns{ .ab1c\n .ab2d % trailing\n xy }\nrest";
    let pats = parse(src);
    assert_eq!(pats, vec![b".ab1c".to_vec(), b".ab2d".to_vec(), b"xy".to_vec()]);
}

#[test]
fn parse_ignores_text_outside_blocks() {
    assert_eq!(parse(b"nothing here"), Vec::<Vec<u8>>::new());
    assert_eq!(parse(b"% \\patterns{ a1 }\n"), Vec::<Vec<u8>>::new());
    assert_eq!(parse(b"\\patterns{}"), Vec::<Vec<u8>>::new());
}

#[test]
fn parse_two_blocks() {
    let pats = parse(b"\\patterns{a1}x\\patterns{b2}");
    assert_eq!(pats, vec![b"a1".to_vec(), b"b2".to_vec()]);
}

#[test]
fn parse_unterminated_block_ends_with_input() {
    let pats = parse(b"\\patterns{ a1 b2");
    assert_eq!(pats, vec![b"a1".to_vec(), b"b2".to_vec()]);
}

#[test]
fn build_trie_from_source() {
    let data = build_trie(b"\\patterns{ a1 }").unwrap();
    let mut b = TrieBuilder::new();
    b.insert(b"a1");
    b.compress();
    assert_eq!(data, b.encode().unwrap());
    assert_eq!(data, vec![0, 0, 0, 8, 11, 160, 0, 65, 33, 97, 253]);
}

/// Reads one node record: transitions, absolute target addresses, and the
/// artifact offset and length of its priority data, if any.
fn read_node(data: &[u8], addr: usize) -> (Vec<u8>, Vec<usize>, Option<(usize, usize)>) {
    let h = data[addr];
    let has_lv = h & 128 != 0;
    let stride = ((h >> 5) & 3) as usize;
    let mut cnt = (h & 31) as usize;
    let mut p = addr + 1;
    if cnt == 31 {
        cnt = data[p] as usize;
        p += 1;
    }
    let lv = if has_lv {
        let hi = data[p] as usize;
        let lo = data[p + 1] as usize;
        p += 2;
        Some((hi << 4 | lo >> 4, lo & 15))
    } else {
        None
    };
    let trans = data[p..p + cnt].to_vec();
    p += cnt;
    let mut targets = Vec::new();
    for j in 0..cnt {
        let q = p + j * stride;
        let delta: i64 = match stride {
            1 => (data[q] as i8) as i64,
            2 => (((data[q] as u16) << 8 | data[q + 1] as u16) as i16) as i64,
            _ => {
                ((data[q] as i64) << 16 | (data[q + 1] as i64) << 8 | data[q + 2] as i64)
                    - (1 << 23)
            },
        };
        targets.push((addr as i64 + delta) as usize);
    }
    (trans, targets, lv)
}

/// Walks the artifact from its declared root by the given letters and
/// decodes the priority data of the node reached.
fn decode_walk(data: &[u8], letters: &[u8]) -> Option<Vec<(u8, u8)>> {
    let root = u32::from_be_bytes([data[0], data[1], data[2], data[3]]) as usize;
    let mut addr = root;
    for &b in letters {
        let (trans, targets, _) = read_node(data, addr);
        match trans.iter().position(|&x| x == b) {
            Some(j) => addr = targets[j],
            None => return None,
        }
    }
    let (_, _, lv) = read_node(data, addr);
    lv.map(|(off, len)| (0..len).map(|k| (data[off + k] / 10, data[off + k] % 10)).collect())
}

#[test]
fn round_trip_patterns() {
    let pats: Vec<&[u8]> = vec![b".ab1c", b".ab2d", b"a1", b".x1y2z", b"zz9y"];
    let mut b = TrieBuilder::new();
    for p in &pats {
        b.insert(p);
    }
    b.compress();
    let data = b.encode().unwrap();
    assert_eq!(decode_walk(&data, b".abc"), Some(vec![(3, 1)]));
    assert_eq!(decode_walk(&data, b".abd"), Some(vec![(3, 2)]));
    assert_eq!(decode_walk(&data, b"a"), Some(vec![(1, 1)]));
    assert_eq!(decode_walk(&data, b".abc2"), None);
    assert_eq!(decode_walk(&data, b".xyz"), Some(vec![(2, 1), (1, 2)]));
    assert_eq!(decode_walk(&data, b"zzy"), Some(vec![(2, 9)]));
    let mut b2 = TrieBuilder::new();
    b2.insert(b".a1b2c");
    b2.compress();
    let d2 = b2.encode().unwrap();
    // the shared `.a1b2c` path decodes both priorities in order.
    assert_eq!(decode_walk(&d2, b".abc"), Some(vec![(2, 1), (1, 2)]));
    // an intermediate node of the path carries no priority data.
    assert_eq!(decode_walk(&d2, b".ab"), None);
}

#[test]
fn parse_comment_inside_block() {
    let pats = parse(b"\\patterns{ab a1b %c\nx}");
    assert_eq!(pats, vec![b"ab".to_vec(), b"a1b".to_vec(), b"x".to_vec()]);
}
