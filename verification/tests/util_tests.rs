use logicly_sim::util::{bits_to_int, int_to_bits};

#[test]
fn test() {
    assert_eq!(bits_to_int(&vec![true, false, false, true, true, true, true, true]), 0b10011111);
    assert_eq!(bits_to_int(&vec![false, false, false, true, true, true, true, false]), 0b00011110);
    assert_eq!(bits_to_int(&vec![true, true, true, true, false]), 0b11110);
    assert_eq!(int_to_bits(0b10011111, 8), vec![true, false, false, true, true, true, true, true]);
    assert_eq!(int_to_bits(0b00011110, 8), vec![false, false, false, true, true, true, true, false]);
    assert_eq!(int_to_bits(0b00011110, 5), vec![true, true, true, true, false]);
}

#[test]
fn bits_to_int_of_nothing_is_zero() {
    assert_eq!(bits_to_int(&[]), 0);
    assert_eq!(int_to_bits(5, 0), Vec::<bool>::new());
}

#[test]
fn bits_to_int_drops_bits_beyond_the_word() {
    let mut bits = vec![true];
    bits.extend(vec![false; usize::BITS as usize]);
    assert_eq!(bits_to_int(&bits), 0);
    bits.push(true);
    assert_eq!(bits_to_int(&bits), 1);
    let ones = vec![true; usize::BITS as usize];
    assert_eq!(bits_to_int(&ones), usize::MAX);
}

#[test]
fn int_to_bits_pads_with_leading_zeros() {
    assert_eq!(int_to_bits(1, 3), vec![false, false, true]);
    assert_eq!(int_to_bits(6, 2), vec![true, false]);
    let wide = int_to_bits(usize::MAX, 200);
    assert_eq!(wide.len(), 200);
    let zeros = 200 - usize::BITS as usize;
    assert!(wide[..zeros].iter().all(|bit| !*bit));
    assert!(wide[zeros..].iter().all(|bit| *bit));
}

#[test]
fn bits_round_trip() {
    for value in 0..64usize {
        assert_eq!(bits_to_int(&int_to_bits(value, 6)), value);
        assert_eq!(bits_to_int(&int_to_bits(value, 4)), value % 16);
    }
}
