use octal_trie::iters::Octals;
use octal_trie::source::SliceSource;
use octal_trie::trie::Trie;

fn children(trie: &Trie, addr: usize) -> Vec<(u8, usize)> {
    let mut iter = trie.children(addr);
    let mut pairs = Vec::new();
    while let Some(pair) = iter.next() {
        pairs.push(pair);
    }
    pairs
}

fn walk(trie: &Trie, path: &[u8]) -> Option<usize> {
    let mut addr: usize = 0;
    for symbol in path {
        addr = children(trie, addr).iter().find(|(s, _)| s == symbol)?.1;
    }
    Some(addr)
}

#[test]
fn new_trie_is_a_bare_root() {
    let trie = Trie::new();
    assert_eq!(trie.len(), 1);
    assert_eq!(trie.childcount(0), 0);
    assert_eq!(children(&trie, 0), vec![]);
}

#[test]
fn navigate_allocates_once_per_slot() {
    let mut trie = Trie::new();
    let a: usize = trie.navigate(0, 3);
    assert_eq!(a, 1);
    assert_eq!(trie.len(), 2);
    assert_eq!(trie.navigate(0, 3), 1);
    assert_eq!(trie.len(), 2);
    let b: usize = trie.navigate(0, 0);
    assert_eq!(b, 2);
    let c: usize = trie.navigate(a, 7);
    assert_eq!(c, 3);
    assert_eq!(trie.len(), 4);
    assert_eq!(trie.childcount(0), 2);
    assert_eq!(trie.childcount(a), 1);
    assert_eq!(trie.childcount(b), 0);
    assert_eq!(children(&trie, 0), vec![(0, 2), (3, 1)]);
    assert_eq!(children(&trie, a), vec![(7, 3)]);
    assert_eq!(children(&trie, c), vec![]);
}

#[test]
fn children_come_in_ascending_symbol_order() {
    let mut trie = Trie::new();
    for symbol in [5u8, 2, 7, 0, 6, 1, 4, 3] {
        trie.navigate(0, symbol);
    }
    assert_eq!(trie.childcount(0), 8);
    assert_eq!(
        children(&trie, 0),
        vec![(0, 4), (1, 6), (2, 2), (3, 8), (4, 7), (5, 1), (6, 5), (7, 3)]
    );
    // Each call starts a walk of its own.
    assert_eq!(children(&trie, 0).len(), 8);
}

#[test]
fn add_string_follows_the_octal_path() {
    let mut trie = Trie::new();
    trie.add_string("a");
    // "a" is the path 1, 4, 1.
    assert_eq!(trie.len(), 4);
    assert_eq!(children(&trie, 0), vec![(1, 1)]);
    assert_eq!(children(&trie, 1), vec![(4, 2)]);
    assert_eq!(children(&trie, 2), vec![(1, 3)]);
    assert_eq!(children(&trie, 3), vec![]);
}

#[test]
fn add_string_twice_changes_nothing() {
    let mut trie = Trie::new();
    trie.add_string("hello");
    let size: usize = trie.len();
    trie.add_string("hello");
    assert_eq!(trie.len(), size);
    trie.add_string("");
    assert_eq!(trie.len(), size);
}

#[test]
fn strings_share_their_common_prefix() {
    let mut trie = Trie::new();
    trie.add_string("aa");
    // 1, 4, 5, 0, 6, 0: six new nodes.
    assert_eq!(trie.len(), 7);
    let first = walk(&trie, &[1]).unwrap();
    let second = walk(&trie, &[1, 4]).unwrap();
    trie.add_string("au");
    // 1, 4, 5, 2, 7, 0 parts from "aa" after 1, 4, 5: three new nodes.
    assert_eq!(trie.len(), 10);
    assert_eq!(walk(&trie, &[1]), Some(first));
    assert_eq!(walk(&trie, &[1, 4]), Some(second));
    assert_eq!(trie.childcount(0), 1);
    assert_eq!(trie.childcount(first), 1);
    assert_eq!(trie.childcount(second), 1);
    let third = walk(&trie, &[1, 4, 5]).unwrap();
    assert_eq!(trie.childcount(third), 2);
    assert_eq!(children(&trie, third).iter().map(|p| p.0).collect::<Vec<u8>>(), vec![0, 2]);
    assert!(walk(&trie, &[1, 4, 5, 0, 6, 0]).is_some());
    assert!(walk(&trie, &[1, 4, 5, 2, 7, 0]).is_some());
    assert!(walk(&trie, &[1, 4, 5, 1]).is_none());
}

#[test]
fn addresses_stay_valid_while_the_arena_grows() {
    let mut trie = Trie::new();
    let mut returned = Vec::new();
    let mut size: usize = trie.len();
    let mut addr: usize = 0;
    for i in 0..2000usize {
        let symbol = ((i * 7 + i / 5) % 8) as u8;
        let from = if i % 3 == 0 { 0 } else { addr };
        addr = trie.navigate(from, symbol);
        returned.push(addr);
        assert!(trie.len() >= size);
        size = trie.len();
        assert!(addr < size);
    }
    assert!(returned.iter().all(|a| *a < trie.len()));
}

#[test]
fn addresses_past_255_are_not_taken_for_empty_slots() {
    let mut trie = Trie::new();
    let mut words = Vec::new();
    for i in 0..200u32 {
        words.push(format!("word-{}-{}", i, i * i));
    }
    for w in &words {
        trie.add_string(w);
    }
    let size: usize = trie.len();
    assert!(size > 600);
    // Every node but the root is the child of exactly one slot, so the
    // filled slots of all nodes add up to the number of nodes less one,
    // whatever the addresses are.
    let mut filled: usize = 0;
    let mut seen = vec![false; size];
    for addr in 0..size {
        let pairs = children(&trie, addr);
        assert_eq!(pairs.len(), trie.childcount(addr) as usize);
        for (symbol, child) in pairs {
            assert!(symbol < 8);
            assert!(child > addr && child < size);
            assert!(!seen[child]);
            seen[child] = true;
            filled += 1;
        }
    }
    assert_eq!(filled, size - 1);
    assert!(seen[255] && seen[256] && seen[0xff + 0x100]);
    // Putting the same strings in again finds every node and adds none.
    for w in &words {
        trie.add_string(w);
        let path = Octals::new(SliceSource::new(w.as_bytes())).collect();
        assert!(walk(&trie, &path).is_some());
    }
    assert_eq!(trie.len(), size);
}

#[test]
fn navigate_finds_the_node_with_address_255() {
    let mut trie = Trie::new();
    let mut addr: usize = 0;
    for _ in 0..255 {
        addr = trie.navigate(addr, 0);
    }
    assert_eq!(addr, 255);
    let parent: usize = 254;
    assert_eq!(trie.childcount(parent), 1);
    assert_eq!(children(&trie, parent), vec![(0, 255)]);
    assert_eq!(trie.navigate(parent, 0), 255);
    assert_eq!(trie.len(), 256);
    assert_eq!(trie.navigate(255, 0), 256);
    assert_eq!(trie.navigate(256, 1), 257);
    assert_eq!(children(&trie, 255), vec![(0, 256)]);
}

#[test]
fn cloned_trie_grows_on_its_own() {
    let mut trie = Trie::new();
    trie.add_string("a");
    let mut copy = trie.clone();
    copy.add_string("b");
    assert_eq!(trie.len(), 4);
    assert!(copy.len() > 4);
}

fn outline(trie: &Trie) -> Vec<(Vec<bool>, Option<u8>)> {
    trie.outline().into_iter().map(|row| (row.bars, row.byte)).collect()
}

#[test]
fn outline_of_a_bare_root_is_empty() {
    assert_eq!(outline(&Trie::new()), vec![]);
}

#[test]
fn outline_of_one_string() {
    let mut trie = Trie::new();
    trie.add_string("a");
    assert_eq!(
        outline(&trie),
        vec![
            (vec![], None),
            (vec![false], None),
            (vec![false, false], Some(b'a')),
        ]
    );
}

#[test]
fn outline_draws_bars_below_nodes_with_more_children() {
    let mut trie = Trie::new();
    trie.add_string("a");
    trie.add_string("aa");
    trie.add_string("au");
    let f = false;
    let t = true;
    assert_eq!(
        outline(&trie),
        vec![
            (vec![], None),
            (vec![f], None),
            (vec![f, f], Some(b'a')),
            (vec![f, f], Some(b'a')),
            (vec![f, f, f], None),
            (vec![f, f, f, t], None),
            (vec![f, f, f, t, f], Some(b'a')),
            (vec![f, f, f], None),
            (vec![f, f, f, f], None),
            (vec![f, f, f, f, f], Some(b'u')),
        ]
    );
}

#[test]
fn outline_has_a_row_for_every_node_but_the_root() {
    let mut trie = Trie::new();
    for word in ["tree", "trie", "try", "t", "", "bits", "bytes"] {
        trie.add_string(word);
    }
    let rows = outline(&trie);
    assert_eq!(rows.len(), trie.len() - 1);
    // A path completes a byte with every symbol that takes the number of
    // bits on the way past a multiple of eight.
    for (bars, byte) in rows {
        let depth = bars.len() + 1;
        assert_eq!(byte.is_some(), (3 * depth) / 8 > (3 * (depth - 1)) / 8);
    }
}
