use scsync::bitmap::BitMap;

#[test]
fn get_set() {
    let mut bitmap = BitMap::new(vec![0u8]);
    for i in 0..8u64 {
        bitmap.set(i, true);
        assert!(bitmap.get(i));
    }
}

#[test]
fn set_leaves_the_other_bits() {
    let mut bitmap = BitMap::new(vec![0b1010_1010u8, 0xff]);
    bitmap.set(0, true);
    bitmap.set(9, false);
    assert_eq!(bitmap.into_inner(), vec![0b1010_1011u8, 0b1111_1101]);
}

#[test]
fn bits_are_counted_from_the_lowest() {
    let bitmap = BitMap::new(vec![0b0000_0001u8, 0b1000_0000]);
    assert!(bitmap.get(0));
    assert!(!bitmap.get(1));
    assert!(!bitmap.get(8));
    assert!(bitmap.get(15));
    assert_eq!(bitmap.num_bits(), 16);
}

#[test]
fn flip_bit_returns_the_new_value() {
    let mut bitmap = BitMap::new(vec![0b0000_0110u8]);
    assert!(bitmap.flip_bit(0));
    assert!(!bitmap.flip_bit(1));
    assert!(bitmap.flip_bit(7));
    assert_eq!(bitmap.get_ref(), &vec![0b1000_0101u8]);
}

#[test]
fn reset_clears_every_bit() {
    let mut bitmap = BitMap::new(vec![0xffu8, 0x0f, 0x30]);
    bitmap.reset();
    assert_eq!(bitmap.get_ref(), &vec![0u8, 0, 0]);
    assert!(!bitmap.any());
    assert_eq!(bitmap.zeroes(), 24);
}

#[test]
fn all_and_any_look_at_the_bits_of_the_map_only() {
    let full = BitMap::with_length(vec![0b0001_1111u8], 5);
    assert!(full.all());
    assert!(full.any());
    assert_eq!(full.zeroes(), 0);
    let holes = BitMap::with_length(vec![0b0001_0111u8], 5);
    assert!(!holes.all());
    assert!(holes.any());
    assert_eq!(holes.zeroes(), 1);
    let none = BitMap::with_length(vec![0b1110_0000u8], 5);
    assert!(!none.all());
    assert!(!none.any());
    assert_eq!(none.zeroes(), 5);
    let empty = BitMap::with_length(Vec::new(), 0);
    assert!(empty.all());
    assert!(!empty.any());
}

#[test]
fn get_mut_writes_through() {
    let mut bitmap = BitMap::new(vec![0u8, 0]);
    bitmap.get_mut()[1] = 0b0000_0100;
    assert!(bitmap.get(10));
    assert!(!bitmap.get(2));
}

#[test]
fn iter_walks_from_both_ends() {
    let bitmap = BitMap::with_length(vec![0b0000_1101u8], 4);
    let mut iter = bitmap.iter();
    assert_eq!(iter.next(), Some(true));
    assert_eq!(iter.next_back(), Some(true));
    assert_eq!(iter.next(), Some(false));
    assert_eq!(iter.next(), Some(true));
    assert_eq!(iter.next(), None);
    assert_eq!(iter.next_back(), None);
}

#[test]
fn iter_range_takes_the_named_bits() {
    let bitmap = BitMap::new(vec![0b0101_0011u8]);
    let mut iter = bitmap.iter_range(2..5u64);
    let mut seen: Vec<bool> = Vec::new();
    while let Some(bit) = iter.next() {
        seen.push(bit);
    }
    assert_eq!(seen, vec![false, false, true]);
}

#[test]
fn iter_range_takes_open_ranges() {
    let bitmap = BitMap::with_length(vec![0b0101_0011u8], 6);
    let collect = |mut iter: scsync::bitmap::Iter| {
        let mut seen: Vec<bool> = Vec::new();
        while let Some(bit) = iter.next() {
            seen.push(bit);
        }
        seen
    };
    assert_eq!(collect(bitmap.iter_range((None, Some(2u64)))), vec![true, true]);
    assert_eq!(collect(bitmap.iter_range((Some(4u64), None))), vec![true, false]);
    assert_eq!(collect(bitmap.iter_range((None::<u64>, None))).len(), 6);
    assert_eq!(collect(bitmap.iter_range((Some(3u64), Some(3u64)))), Vec::<bool>::new());
}
