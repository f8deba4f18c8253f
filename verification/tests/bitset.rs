use orderbook::enums::order_book_errors::OrderBookError;
use orderbook::models::bitset::Bitset;

#[test]
fn test_set_correctly_sets_specified_bit() {
    let mut bitset: Bitset = Bitset::new(256);

    for block in &bitset.bits {
        assert_eq!(*block, 0);
    }

    let set_result = bitset.set(4);

    assert!(set_result.is_ok());
    assert_eq!(bitset.bits[3], 16);

    let set_result = bitset.set(196);

    assert!(set_result.is_ok());
    assert_eq!(bitset.bits[0], 16);
}

#[test]
fn test_set_errors_bitset_index_out_of_range() {
    let mut bitset: Bitset = Bitset::new(256);

    for block in &bitset.bits {
        assert_eq!(*block, 0);
    }

    let set_result = bitset.set(257);

    assert!(set_result.is_err());
    assert_eq!(set_result.err().unwrap(), OrderBookError::BitsetIndexOutOfRange(256));
    assert_eq!(bitset.bits[3], 0);
}

#[test]
fn test_clear_correctly_clears_specified_bit() {
    let mut bitset: Bitset = Bitset::new(256);

    for block in &bitset.bits {
        assert_eq!(*block, 0);
    }

    let set_result = bitset.set(4);

    assert!(set_result.is_ok());
    assert_eq!(bitset.bits[3], 16);

    let clear_result = bitset.clear(4);

    assert!(clear_result.is_ok());
    assert_eq!(bitset.bits[3], 0);
}

#[test]
fn test_clear_errors_bitset_index_out_of_range() {
    let mut bitset: Bitset = Bitset::new(256);

    for block in &bitset.bits {
        assert_eq!(*block, 0);
    }

    let set_result = bitset.set(4);

    assert!(set_result.is_ok());
    assert_eq!(bitset.bits[3], 16);

    let clear_result = bitset.clear(257);

    assert!(clear_result.is_err());
    assert_eq!(clear_result.err().unwrap(), OrderBookError::BitsetIndexOutOfRange(256));
    assert_eq!(bitset.bits[3], 16);
}

#[test]
fn test_find_first_set_correctly_finds_first_bit_set() {
    let mut bitset: Bitset = Bitset::new(256);

    for block in &bitset.bits {
        assert_eq!(*block, 0);
    }

    let set_result = bitset.set(4);

    assert!(set_result.is_ok());
    assert_eq!(bitset.bits[3], 16);

    let set_result = bitset.set(0);

    assert!(set_result.is_ok());
    assert_eq!(bitset.bits[3], 17);

    let find_first_set_result = bitset.find_first_set();

    assert!(find_first_set_result.is_some());
    assert_eq!(find_first_set_result.unwrap(), 0);
}

#[test]
fn test_find_first_set_correctly_returns_none_with_0_bits_set() {
    let bitset: Bitset = Bitset::new(256);

    for block in &bitset.bits {
        assert_eq!(*block, 0);
    }

    let find_first_set_result = bitset.find_first_set();

    assert!(find_first_set_result.is_none());
}

#[test]
fn test_find_last_set_correctly_finds_last_bit_set() {
    let mut bitset: Bitset = Bitset::new(256);

    for block in &bitset.bits {
        assert_eq!(*block, 0);
    }

    let set_result = bitset.set(4);

    assert!(set_result.is_ok());
    assert_eq!(bitset.bits[3], 16);

    let set_result = bitset.set(0);

    assert!(set_result.is_ok());
    assert_eq!(bitset.bits[3], 17);

    let find_last_set_result = bitset.find_last_set();

    assert!(find_last_set_result.is_some());
    assert_eq!(find_last_set_result.unwrap(), 4);
}

#[test]
fn test_find_last_set_correctly_returns_none_with_0_bits_set() {
    let bitset: Bitset = Bitset::new(256);

    for block in &bitset.bits {
        assert_eq!(*block, 0);
    }

    let find_last_set_result = bitset.find_last_set();

    assert!(find_last_set_result.is_none());
}

#[test]
fn test_set_then_is_set_and_clear_then_is_set() {
    let mut bitset: Bitset = Bitset::new(300);

    assert!(!bitset.is_set(77));
    bitset.set(77).unwrap();
    assert!(bitset.is_set(77));
    bitset.clear(77).unwrap();
    assert!(!bitset.is_set(77));
}

#[test]
fn test_find_first_set_is_at_most_find_last_set_across_blocks() {
    let mut bitset: Bitset = Bitset::new(1024);

    bitset.set(900).unwrap();
    bitset.set(3).unwrap();
    bitset.set(130).unwrap();

    let first = bitset.find_first_set().unwrap();
    let last = bitset.find_last_set().unwrap();

    assert_eq!(first, 3);
    assert_eq!(last, 900);
    assert!(first <= last);
}

#[test]
fn test_find_first_set_equals_find_last_set_with_single_bit() {
    let mut bitset: Bitset = Bitset::new(512);

    bitset.set(301).unwrap();

    assert_eq!(bitset.find_first_set(), Some(301));
    assert_eq!(bitset.find_last_set(), Some(301));
}
