use octal_trie::iters::{OctalPrinter, Octals};
use octal_trie::source::{ByteSource, SliceSource};

fn octals(bytes: &[u8]) -> Vec<u8> {
    Octals::new(SliceSource::new(bytes)).collect()
}

fn pack(symbols: &[u8]) -> Vec<u8> {
    let mut printer = OctalPrinter::new();
    let mut bytes = Vec::new();
    for s in symbols {
        if let Some(b) = printer.add(*s) {
            bytes.push(b);
        }
    }
    bytes
}

#[test]
fn test_octals() {
    assert_eq!(
        Octals::new(SliceSource::new(&[0b01001001, 0b10010010, 0b00100100])).collect(),
        vec![1, 1, 1, 1, 1, 1, 1, 1]
    );

    assert_eq!(
        Octals::new(SliceSource::new(&[0b11010001, 0b01011000, 0b00011111])).collect(),
        vec![1, 2, 3, 4, 5, 6, 7, 0]
    );

    assert_eq!(
        Octals::new(SliceSource::new("a".as_bytes())).collect(),
        vec![1, 4, 1]
    );

    assert_eq!(
        Octals::new(SliceSource::new("aa".as_bytes())).collect(),
        vec![1, 4, 5, 0, 6, 0]
    );
    assert_eq!(
        Octals::new(SliceSource::new("au".as_bytes())).collect(),
        vec![1, 4, 5, 2, 7, 0]
    );
    assert_eq!(
        Octals::new(SliceSource::new("aab".as_bytes())).collect(),
        vec![1, 4, 5, 0, 6, 4, 0, 3]
    );
    assert_eq!(
        Octals::new(SliceSource::new("aaa".as_bytes())).collect(),
        vec![1, 4, 5, 0, 6, 2, 0, 3]
    );
}

#[test]
fn test_octal_printer() {
    let mut printer = OctalPrinter::new();
    assert_eq!(printer.add(1), None);
    assert_eq!(printer.add(1), None);
    assert_eq!(printer.add(1), Some(0b01001001));
    assert_eq!(printer.add(1), None);
    assert_eq!(printer.add(1), None);
    assert_eq!(printer.add(1), Some(0b10010010));
    assert_eq!(printer.add(1), None);
    assert_eq!(printer.add(1), Some(0b00100100));

    assert_eq!(printer.add(1), None);
    assert_eq!(printer.add(2), None);
    assert_eq!(printer.add(3), Some(0b11010001));
    assert_eq!(printer.add(4), None);
    assert_eq!(printer.add(5), None);
    assert_eq!(printer.add(6), Some(0b01011000));
    assert_eq!(printer.add(7), None);
    assert_eq!(printer.add(0), Some(0b00011111));
}

#[test]
fn test_octal_roundtrip() {
    let test_string = "test TEST 123 \0 hoge \r\n hello! ";
    let mut printer = OctalPrinter::new();
    let mut result = Vec::new();
    let mut octals = Octals::new(SliceSource::new(test_string.as_bytes()));
    while let Some(o) = octals.next() {
        if let Some(b) = printer.add(o) {
            result.push(b);
        }
    }
    assert_eq!(result, test_string.as_bytes());
}

#[test]
fn octals_of_nothing() {
    assert_eq!(octals(&[]), Vec::<u8>::new());
    let mut it = Octals::new(SliceSource::new(&[]));
    assert_eq!(it.next(), None);
    assert_eq!(it.next(), None);
}

#[test]
fn octals_single_byte_has_padded_tail() {
    // 0xff is eight set bits: two full groups, and a last group of two bits
    // that is filled up with one clear bit.
    assert_eq!(octals(&[0xff]), vec![7, 7, 3]);
    assert_eq!(octals(&[0x80]), vec![0, 0, 2]);
    assert_eq!(octals(&[0x00]), vec![0, 0, 0]);
}

#[test]
fn octals_two_bytes_have_one_bit_tail() {
    // Sixteen bits: five full groups and a last group of one bit.
    assert_eq!(octals(&[0xff, 0xff]), vec![7, 7, 7, 7, 7, 1]);
    assert_eq!(octals(&[0x00, 0x80]), vec![0, 0, 0, 0, 0, 1]);
}

#[test]
fn octals_three_bytes_have_no_tail() {
    assert_eq!(octals(&[0xff, 0xff, 0xff]), vec![7; 8]);
}

#[test]
fn octals_next_stays_exhausted() {
    let mut it = Octals::new(SliceSource::new(&[0x61]));
    assert_eq!(it.next(), Some(1));
    assert_eq!(it.next(), Some(4));
    assert_eq!(it.next(), Some(1));
    assert_eq!(it.next(), None);
    assert_eq!(it.next(), None);
}

#[test]
fn octals_count_is_bits_over_three_rounded_up() {
    for n in 0..50usize {
        let bytes: Vec<u8> = (0..n).map(|i| (i * 91 + 5) as u8).collect();
        let symbols = octals(&bytes);
        assert_eq!(symbols.len(), (8 * n + 2) / 3);
        assert!(symbols.iter().all(|s| *s < 8));
    }
    assert_eq!(octals(&[0; 1]).len(), 3);
    assert_eq!(octals(&[0; 2]).len(), 6);
    assert_eq!(octals(&[0; 3]).len(), 8);
    assert_eq!(octals(&[0; 4]).len(), 11);
}

#[test]
fn octals_are_the_bit_groups_of_the_stream() {
    let bytes: Vec<u8> = (0..=255u8).collect();
    let symbols = octals(&bytes);
    let bit = |k: usize| -> u8 {
        if k < 8 * bytes.len() {
            (bytes[k / 8] >> (k % 8)) & 1
        } else {
            0
        }
    };
    for (i, s) in symbols.iter().enumerate() {
        assert_eq!(*s, bit(3 * i) + 2 * bit(3 * i + 1) + 4 * bit(3 * i + 2));
    }
}

#[test]
fn roundtrip_every_length_and_byte() {
    for n in 0..40usize {
        let bytes: Vec<u8> = (0..n).map(|i| (i * 151 + 3 * n + 7) as u8).collect();
        assert_eq!(pack(&octals(&bytes)), bytes);
    }
    for b in 0..=255u8 {
        assert_eq!(pack(&octals(&[b])), vec![b]);
        assert_eq!(pack(&octals(&[b, !b])), vec![b, !b]);
    }
}

#[test]
fn printer_emits_on_every_eighth_bit() {
    let mut printer = OctalPrinter::new();
    let mut emitted = Vec::new();
    for i in 0..24usize {
        emitted.push(printer.add(7).is_some());
        let bits: usize = 3 * (i + 1);
        assert_eq!(emitted.iter().filter(|e| **e).count(), bits / 8);
    }
}

#[test]
fn printer_copies_do_not_share_state() {
    let mut first = OctalPrinter::new();
    assert_eq!(first.add(1), None);
    assert_eq!(first.add(4), None);
    let mut second = first;
    assert_eq!(first.add(5), Some(b'a'));
    assert_eq!(second.add(7), Some(0xe1));
    let mut third = second.clone();
    assert_eq!(second.add(0), None);
    assert_eq!(third.add(7), None);
    assert_eq!(second.add(6), None);
    assert_eq!(third.add(6), None);
    assert_eq!(second.add(0), Some(0x61));
    assert_eq!(third.add(0), Some(0x6f));
}

#[test]
fn slice_source_hands_out_bytes_in_order() {
    let mut source = SliceSource::new(&[3, 1, 4]);
    assert_eq!(source.next_byte(), Some(3));
    assert_eq!(source.next_byte(), Some(1));
    assert_eq!(source.next_byte(), Some(4));
    assert_eq!(source.next_byte(), None);
    assert_eq!(source.next_byte(), None);
}

/// Counts down from its start to one.
struct Countdown(u8);

impl ByteSource for Countdown {
    fn next_byte(&mut self) -> Option<u8> {
        if self.0 == 0 {
            None
        } else {
            self.0 -= 1;
            Some(self.0 + 1)
        }
    }
}

#[test]
fn octals_pull_from_any_source() {
    let symbols = Octals::new(Countdown(3)).collect();
    assert_eq!(symbols, octals(&[3, 2, 1]));
    assert_eq!(pack(&symbols), vec![3, 2, 1]);
}

#[test]
fn octals_pull_a_byte_only_when_bits_run_short() {
    // Two bytes are sixteen bits. The first symbol needs the first byte;
    // the third needs the second, because only two bits are left by then.
    let mut it = Octals::new(Countdown(2));
    assert_eq!(it.next(), Some(2));
    assert_eq!(it.next(), Some(0));
    assert_eq!(it.next(), Some(4));
    assert_eq!(it.next(), Some(0));
    assert_eq!(it.next(), Some(0));
    assert_eq!(it.next(), Some(0));
    assert_eq!(it.next(), None);
}
