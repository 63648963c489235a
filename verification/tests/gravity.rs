use mnk_games::gravity::lowest_row_in;
use mnk_games::{MnkBoard, OutOfBounds, PlaceError, PlayError, Player};

#[test]
fn empty_yields_r_minus_one() {
    let one_one: MnkBoard<1, 1> = MnkBoard::new();
    assert_eq!(lowest_row_in(&one_one, 0), Ok(0));

    let two_one: MnkBoard<2, 1> = MnkBoard::new();
    assert_eq!(lowest_row_in(&two_one, 0), Ok(1));

    let two_two: MnkBoard<2, 2> = MnkBoard::new();
    assert_eq!(lowest_row_in(&two_two, 1), Ok(1));
}

#[test]
fn non_empty_yields_lowest() {
    let mut two_one: MnkBoard<2, 1> = MnkBoard::new();
    _ = two_one.place(Player::X, 1, 0);
    assert_eq!(lowest_row_in(&two_one, 0), Ok(0));

    let mut two_two: MnkBoard<2, 2> = MnkBoard::new();
    _ = two_two.place(Player::X, 1, 1);
    assert_eq!(lowest_row_in(&two_two, 1), Ok(0));
}

#[test]
fn out_of_bounds_fails() {
    let one_one: MnkBoard<1, 1> = MnkBoard::new();
    assert!(matches!(
        lowest_row_in(&one_one, 1),
        Err(PlayError::PlaceError(PlaceError::OutOfBounds(OutOfBounds {
            row: None,
            column: Some(1)
        })))
    ));
}

#[test]
fn full_column_fails() {
    let mut one_one: MnkBoard<1, 1> = MnkBoard::new();
    _ = one_one.place(Player::X, 0, 0);
    assert!(matches!(
        lowest_row_in(&one_one, 0),
        Err(PlayError::PlaceError(PlaceError::Occupied { player: None }))
    ));
}
