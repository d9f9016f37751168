use reversi::board::{Board, Cell};
use reversi::player::Player;

fn snapshot(b: &Board) -> Vec<Cell> {
    let mut cells: Vec<Cell> = Vec::new();
    for r in 0..8i32 {
        for c in 0..8i32 {
            cells.push(b.cell(r, c));
        }
    }
    cells
}

fn first_valid_move(b: &Board, player: Player) -> Option<(i32, i32)> {
    for r in 0..8i32 {
        for c in 0..8i32 {
            if b.is_valid_move(r, c, player) {
                return Some((r, c));
            }
        }
    }
    None
}

#[test]
fn initial_board_layout_and_counts() {
    let b = Board::new();
    let (black, white) = b.count_stones();
    assert_eq!(black, 2);
    assert_eq!(white, 2);
    assert_eq!(b.cell(3, 3), Cell::Occupied(Player::White));
    assert_eq!(b.cell(3, 4), Cell::Occupied(Player::Black));
    assert_eq!(b.cell(4, 3), Cell::Occupied(Player::Black));
    assert_eq!(b.cell(4, 4), Cell::Occupied(Player::White));
    let mut occupied: i32 = 0;
    for r in 0..8i32 {
        for c in 0..8i32 {
            if b.cell(r, c) != Cell::Empty {
                occupied += 1;
            }
        }
    }
    assert_eq!(occupied, 4);
}

#[test]
fn out_of_bounds_is_invalid() {
    let b = Board::new();
    assert!(!b.is_valid_move(-1, 0, Player::Black));
    assert!(!b.is_valid_move(8, 0, Player::Black));
    assert!(!b.is_valid_move(0, -1, Player::White));
    assert!(!b.is_valid_move(0, 8, Player::White));
    assert!(!b.is_valid_move(-3, 9, Player::Black));
    assert!(!b.is_valid_move(100, 100, Player::White));
}

#[test]
fn occupied_square_is_invalid() {
    let b = Board::new();
    for &p in &[Player::Black, Player::White] {
        assert!(!b.is_valid_move(3, 3, p));
        assert!(!b.is_valid_move(3, 4, p));
        assert!(!b.is_valid_move(4, 3, p));
        assert!(!b.is_valid_move(4, 4, p));
    }
}

#[test]
fn opponent_is_involutive() {
    assert_eq!(Player::Black.opponent(), Player::White);
    assert_eq!(Player::White.opponent(), Player::Black);
    assert_eq!(Player::Black.opponent().opponent(), Player::Black);
    assert_eq!(Player::White.opponent().opponent(), Player::White);
}

#[test]
fn illegal_move_leaves_board_unchanged() {
    let mut b = Board::new();
    let before = snapshot(&b);
    // captures nothing
    assert!(!b.make_move(0, 0, Player::Black));
    // already occupied
    assert!(!b.make_move(3, 3, Player::Black));
    assert!(!b.make_move(4, 4, Player::White));
    // off the board
    assert!(!b.make_move(-1, 5, Player::White));
    assert!(!b.make_move(2, 8, Player::Black));
    let after = snapshot(&b);
    assert_eq!(before, after);
}

#[test]
fn black_opening_move_captures() {
    let mut b = Board::new();
    assert!(b.is_valid_move(2, 3, Player::Black));
    assert!(b.make_move(2, 3, Player::Black));
    assert_eq!(b.cell(2, 3), Cell::Occupied(Player::Black));
    assert_eq!(b.cell(3, 3), Cell::Occupied(Player::Black));
    let (black, white) = b.count_stones();
    assert_eq!(black, 4);
    assert_eq!(white, 1);
    assert_eq!(black + white, 5);
}

#[test]
fn adjacency_without_bracket_is_invalid() {
    let b = Board::new();
    // (2,2) touches the white stone at (3,3), but the diagonal runs
    // white, white, empty: no black stone brackets the run.
    assert!(!b.is_valid_move(2, 2, Player::Black));
    // (5,5) touches the white stone at (4,4) with the same open diagonal.
    assert!(!b.is_valid_move(5, 5, Player::Black));
    // (2,3) touches black's stone at (3,4) with an empty square beyond.
    assert!(!b.is_valid_move(2, 3, Player::White));
}

#[test]
fn fresh_board_has_moves_for_both() {
    let b = Board::new();
    assert!(b.has_valid_move(Player::Black));
    assert!(b.has_valid_move(Player::White));
}

#[test]
fn successful_moves_add_exactly_one_stone() {
    let mut b = Board::new();
    let mut player = Player::Black;
    let mut steps: i32 = 0;
    while steps < 12 {
        if !b.has_valid_move(player) {
            if !b.has_valid_move(player.opponent()) {
                break;
            }
            player = player.opponent();
            continue;
        }
        let (before_black, before_white) = b.count_stones();
        let (r, c) = first_valid_move(&b, player).expect("a valid move must exist");
        assert!(b.make_move(r, c, player));
        let (after_black, after_white) = b.count_stones();
        assert_eq!(before_black + before_white + 1, after_black + after_white);
        player = player.opponent();
        steps += 1;
    }
}

#[test]
fn finished_game_has_exactly_one_outcome() {
    let mut b = Board::new();
    let mut player = Player::Black;
    let mut passes: i32 = 0;
    let mut turns: i32 = 0;
    while passes < 2 && turns < 200 {
        if !b.has_valid_move(player) {
            passes += 1;
            player = player.opponent();
            continue;
        }
        passes = 0;
        let (r, c) = first_valid_move(&b, player).expect("a valid move must exist");
        assert!(b.make_move(r, c, player));
        player = player.opponent();
        turns += 1;
    }
    // both players are stuck: the game is over
    assert_eq!(passes, 2);
    assert!(!b.has_valid_move(Player::Black));
    assert!(!b.has_valid_move(Player::White));
    let (black, white) = b.count_stones();
    assert!(black + white <= 64);
    let outcomes = [black > white, white > black, black == white];
    let held: usize = outcomes.iter().filter(|&&o| o).count();
    assert_eq!(held, 1);
}
