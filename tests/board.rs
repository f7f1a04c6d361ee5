use decider::engine::Ratio;
use decider::tiktaktoe::{display, eval, Board, Field, Player, Scorer};
use decider::engine::Engine;

/// A board with X to move, built from three rows of `X`, `O` or blank.
fn board_of(rows: [&str; 3]) -> Board {
    let mut b = Board::new();
    for (x, row) in rows.iter().enumerate() {
        for (y, c) in row.chars().enumerate() {
            match c {
                'X' => b.set(x, y, Field::Player(Player::X)),
                'O' => b.set(x, y, Field::Player(Player::O)),
                _ => {}
            }
        }
    }
    b
}

#[test]
fn completes_the_row_with_full_minimax() {
    let b = board_of(["XX ", "OO ", "   "]);
    let mut e = Engine::new(Scorer { player: Player::X }, Ratio::new(1, 1).unwrap());
    assert_eq!(e.select(&b), Ok(Some(((0, 2), 100))));
}

#[test]
fn empty_board_is_a_draw_for_x() {
    let mut e = Engine::new(Scorer { player: Player::X }, Ratio::new(1, 1).unwrap());
    let r = e.select(&Board::new()).unwrap().unwrap();
    assert_eq!(r.1, 0);
}

#[test]
fn empty_board_is_a_draw_for_o() {
    let mut e = Engine::new(Scorer { player: Player::O }, Ratio::new(1, 1).unwrap());
    let r = e.select(&Board::new()).unwrap().unwrap();
    assert_eq!(r.1, 0);
}

#[test]
fn full_board_has_no_decision() {
    let b = board_of(["XOX", "XOO", "OXX"]);
    assert!(b.is_full());
    let mut e = eval(Player::X);
    assert_eq!(e.select(&b), Ok(None));
}

#[test]
fn session_ratio_is_ninety_nine_hundredths() {
    let e = eval(Player::O);
    assert_eq!((e.ratio().num(), e.ratio().den()), (99, 100));
    assert_eq!(e.oracle().player, Player::O);
}

#[test]
fn set_and_get_cells() {
    let mut b = Board::new();
    assert_eq!(b.get(1, 2), Field::Empty);
    b.set(1, 2, Field::Player(Player::O));
    assert_eq!(b.get(1, 2), Field::Player(Player::O));
    assert_eq!(b.get(2, 1), Field::Empty);
    assert!(!b.is_full());
}

#[test]
fn winners_by_row_column_and_diagonal() {
    assert_eq!(board_of(["XXX", "OO ", "   "]).winner(), Some(Player::X));
    assert_eq!(board_of(["OX ", "OX ", "O  "]).winner(), Some(Player::O));
    assert_eq!(board_of(["X O", " XO", "  X"]).winner(), Some(Player::X));
    assert_eq!(board_of(["X O", " OX", "O  "]).winner(), Some(Player::O));
    assert_eq!(board_of(["XO ", "   ", "   "]).winner(), None);
    assert!(board_of(["  X", " X ", "X  "]).is_winner(Player::X));
    assert!(!board_of(["  X", " X ", "X  "]).is_winner(Player::O));
}

#[test]
fn opponent_of_each_player() {
    assert_eq!(Player::X.not(), Player::O);
    assert_eq!(Player::O.not(), Player::X);
}

#[test]
fn display_renders_rows() {
    let b = board_of(["XO ", " X ", "  O"]);
    assert_eq!(display(b), "XO \n X \n  O\n");
    assert_eq!(display(Board::new()), "   \n   \n   \n");
}

#[test]
fn new_board_has_x_to_move() {
    assert_eq!(Board::new().player(), Player::X);
}
