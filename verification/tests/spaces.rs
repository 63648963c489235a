use mnk_games::mnk::{MnkBoard, Player, Space};

#[test]
fn space_conversions() {
    assert_eq!(Space::from(None), Space::Empty);
    assert_eq!(Space::from(Some(Player::O)), Space::Stone(Player::O));
    assert_eq!(Option::<Player>::from(Space::Stone(Player::X)), Some(Player::X));
    assert_eq!(Option::<Player>::from(Space::Empty), None);
    assert_eq!(Space::default(), Space::Empty);
    assert_eq!(Space::Empty.to_string(), " ");
    assert_eq!(Space::Stone(Player::O).to_string(), "O");
    assert_eq!(Player::X.to_string(), "X");
}

#[test]
fn space_board_winner_and_conversions() {
    let rows = [
        [Space::Empty, Space::Stone(Player::O)],
        [Space::Stone(Player::O), Space::Empty],
    ];
    let board = MnkBoard::<2, 2, 2>::from(rows);
    assert_eq!(board.winner(), Some(Player::O));
    let back: [[Space; 2]; 2] = board.into();
    assert_eq!(back, rows);
    assert_eq!(MnkBoard::<2, 2, 2>::default(), MnkBoard::new());
    assert_eq!(MnkBoard::<2, 2, 2>::new().winner(), None);
    assert_eq!(board.coords_to_spaces(&[(0, 1), (1, 1)]), vec![Space::Stone(Player::O), Space::Empty]);
}

#[test]
fn space_diagonals_shorter_than_k_are_left_out() {
    let tall = MnkBoard::<3, 1, 2>::new();
    assert!(tall.left_down_diagonals().is_empty());
    assert!(tall.right_down_diagonals().is_empty());
    let wide = MnkBoard::<1, 3, 2>::new();
    assert!(wide.top_right_diagonals().is_empty());
    assert!(wide.top_left_diagonals().is_empty());
}
