use octal_trie::iters::Nibbles;
use octal_trie::source::SliceSource;

fn nibbles(bytes: &[u8]) -> Vec<u8> {
    Nibbles::new(SliceSource::new(bytes)).collect()
}

#[test]
fn test_nibbles() {
    assert_eq!(
        Nibbles::new(SliceSource::new(&[0x21, 0x43, 0x65, 0x87, 0xa9, 0xcb, 0xed, 0x0f])).collect(),
        vec![1, 2, 3, 4, 5, 6, 7, 8, 9, 10, 11, 12, 13, 14, 15, 0]
    );
}

#[test]
fn nibbles_of_nothing() {
    assert_eq!(nibbles(&[]), Vec::<u8>::new());
}

#[test]
fn nibbles_low_half_first() {
    assert_eq!(nibbles(&[0xf0]), vec![0x0, 0xf]);
    assert_eq!(nibbles(&[0x0f]), vec![0xf, 0x0]);
    assert_eq!(nibbles(&[0xa5, 0x3c]), vec![0x5, 0xa, 0xc, 0x3]);
}

#[test]
fn nibbles_two_per_byte() {
    for n in 0..40usize {
        let bytes: Vec<u8> = (0..n).map(|i| (i * 37 + 11) as u8).collect();
        let symbols = nibbles(&bytes);
        assert_eq!(symbols.len(), 2 * n);
        for (i, s) in symbols.iter().enumerate() {
            assert!(*s < 16);
            let b = bytes[i / 2];
            assert_eq!(*s, if i % 2 == 0 { b % 16 } else { b / 16 });
        }
    }
}

#[test]
fn nibbles_next_stays_exhausted() {
    let mut it = Nibbles::new(SliceSource::new(&[0x21]));
    assert_eq!(it.next(), Some(1));
    assert_eq!(it.next(), Some(2));
    assert_eq!(it.next(), None);
    assert_eq!(it.next(), None);
}
