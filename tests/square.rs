use sudoku::square::Square;

#[test]
fn from_value_zero_is_empty() {
    assert!(Square::from_value(0).is_empty());
    assert_eq!(Square::from_value(0).value(), 0);
}

#[test]
fn from_value_digit_is_filled() {
    let sq = Square::from_value(7);
    assert!(matches!(sq, Square::Filled(7)));
    assert!(!sq.is_initial());
    assert!(!sq.is_empty());
    assert_eq!(sq.value(), 7);
}

#[test]
fn initial_is_a_clue() {
    let sq = Square::initial(4);
    assert!(sq.is_initial());
    assert_eq!(sq.value(), 4);
}

#[test]
fn equality_ignores_kind() {
    assert!(Square::initial(5) == Square::from_value(5));
    assert!(Square::initial(5) != Square::from_value(6));
    assert!(Square::Empty == Square::from_value(0));
}
