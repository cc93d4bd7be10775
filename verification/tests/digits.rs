use sudoku_rl::digit::Digit;

const ALL: [Digit; 9] = [
    Digit::One,
    Digit::Two,
    Digit::Three,
    Digit::Four,
    Digit::Five,
    Digit::Six,
    Digit::Seven,
    Digit::Eight,
    Digit::Nine,
];

#[test]
fn from_u8_gives_each_digit_its_number() {
    for (i, d) in ALL.iter().enumerate() {
        assert_eq!(Digit::from_u8(i as u8 + 1), Some(*d));
        assert_eq!(d.value(), i as u8 + 1);
    }
}

#[test]
fn from_u8_has_no_digit_for_zero() {
    assert_eq!(Digit::from_u8(0), None);
}

#[test]
fn from_u8_has_no_digit_above_nine() {
    assert_eq!(Digit::from_u8(10), None);
    assert_eq!(Digit::from_u8(16), None);
    assert_eq!(Digit::from_u8(255), None);
}

#[test]
fn digits_are_ordered_by_their_numbers() {
    assert!(Digit::One < Digit::Two);
    assert!(Digit::Eight < Digit::Nine);
    assert!(Digit::Nine > Digit::One);
    assert_ne!(Digit::Three, Digit::Four);
}
