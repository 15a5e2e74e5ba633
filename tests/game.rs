use mcts::game_state::{Color, End, GameState, Move};

fn play(state: GameState, cols: &[usize]) -> GameState {
    let mut s = state;
    for &x in cols {
        let color = s.side_to_move();
        s = s.place(&Move::new(x, color));
    }
    s
}

fn drawn_board() -> GameState {
    // cells of each column, top row first; 1 is White, 2 is Black
    let cols: [[u8; 6]; 7] = [
        [2, 1, 1, 1, 2, 2],
        [2, 1, 2, 2, 1, 2],
        [1, 1, 1, 2, 2, 1],
        [2, 2, 1, 2, 1, 2],
        [2, 1, 1, 1, 2, 1],
        [1, 1, 2, 1, 2, 2],
        [2, 2, 2, 1, 1, 1],
    ];
    let mut s = GameState::new();
    for (x, col) in cols.iter().enumerate() {
        for y in (0..6).rev() {
            let color = if col[y] == 1 { Color::White } else { Color::Black };
            s = s.place(&Move::new(x, color));
        }
    }
    s
}

#[test]
fn new_board_is_empty_with_white_to_move() {
    let s = GameState::new();
    assert_eq!(s.side_to_move(), Color::White);
    assert_eq!(s.win(), End::Ongoing);
    let moves = s.legal_moves(Color::White);
    assert_eq!(moves.len(), 7);
    for (i, m) in moves.iter().enumerate() {
        assert_eq!(m.x, i);
        assert_eq!(m.color, Color::White);
    }
}

#[test]
fn move_constructors() {
    let m = Move::new(4, Color::Black);
    assert_eq!(m.x, 4);
    assert_eq!(m.color, Color::Black);
    assert_eq!(Move::white_new(2), Move::new(2, Color::White));
    assert_eq!(Move::black_new(6), Move::new(6, Color::Black));
}

#[test]
fn print_empty_board() {
    let s = GameState::new();
    let row = "| || || || || || || |\n";
    let expected = format!("\n{}{}{}{}{}{}|1||2||3||4||5||6||7|", row, row, row, row, row, row);
    assert_eq!(s.print(), expected);
}

#[test]
fn pieces_drop_to_the_bottom_and_turn_passes() {
    let s = GameState::new().place(&Move::white_new(3));
    assert_eq!(s.side_to_move(), Color::Black);
    let s = s.place(&Move::black_new(3));
    assert_eq!(s.side_to_move(), Color::White);
    let text = s.print();
    let lines: Vec<&str> = text.split('\n').collect();
    assert_eq!(lines[6], "| || || ||X|| || || |");
    assert_eq!(lines[5], "| || || ||O|| || || |");
    assert_eq!(lines[4], "| || || || || || || |");
}

#[test]
fn full_column_is_illegal_and_placing_there_changes_nothing() {
    let s = play(GameState::new(), &[0, 0, 0, 0, 0, 0]);
    assert!(!s.legal(&Move::white_new(0)));
    assert!(s.legal(&Move::white_new(1)));
    let after = s.place(&Move::white_new(0));
    assert_eq!(after, s);
    let moves = s.legal_moves(Color::White);
    assert_eq!(moves.len(), 6);
    assert_eq!(moves[0].x, 1);
}

#[test]
fn column_past_the_edge_is_illegal() {
    let s = GameState::new();
    assert!(!s.legal(&Move::white_new(7)));
    assert!(!s.legal(&Move::white_new(100)));
    assert_eq!(s.place(&Move::white_new(7)), s);
}

#[test]
fn empty_move_only_passes_the_turn_to_white() {
    let s = GameState::new().place(&Move::white_new(2));
    let t = s.place(&Move::new(1, Color::Empty));
    assert_eq!(t.side_to_move(), Color::White);
    assert_eq!(t.print(), s.print());
}

#[test]
fn horizontal_line_wins() {
    let s = play(GameState::new(), &[0, 0, 1, 1, 2, 2, 3]);
    assert_eq!(s.win(), End::Victory(Color::White));
    assert!(s.is_line_start(5, 0, Color::White));
    assert!(s.linear_match(5, 0, 0, 1, Color::White));
    assert!(!s.linear_match(5, 1, 0, 1, Color::White));
}

#[test]
fn vertical_line_wins_for_black() {
    let s = play(GameState::new(), &[0, 1, 2, 1, 2, 1, 4, 1]);
    assert_eq!(s.win(), End::Victory(Color::Black));
    assert!(s.linear_match(2, 1, 1, 0, Color::Black));
}

#[test]
fn diagonal_line_wins() {
    // White on (row 5, col 0), (4, 1), (3, 2), (2, 3)
    let s = play(GameState::new(), &[0, 1, 1, 2, 2, 3, 2, 3, 3, 6, 3]);
    assert_eq!(s.win(), End::Victory(Color::White));
    assert!(s.linear_match(2, 3, 1, -1, Color::White));
    assert!(s.is_line_start(2, 3, Color::White));
}

#[test]
fn lines_off_the_board_do_not_match() {
    let s = play(GameState::new(), &[0, 0, 1, 1, 2, 2, 3]);
    assert!(!s.linear_match(-1, 0, 1, 0, Color::White));
    assert!(!s.linear_match(5, 5, 0, 1, Color::White));
    assert!(!s.linear_match(i32::MAX, i32::MIN, i32::MAX, i32::MIN, Color::White));
    assert!(!s.is_line_start(0, 0, Color::White));
}

#[test]
fn full_board_without_line_is_a_tie_with_no_moves() {
    let s = drawn_board();
    assert_eq!(s.win(), End::Tie);
    assert!(s.legal_moves(Color::White).is_empty());
    assert!(s.legal_moves(Color::Black).is_empty());
}

#[test]
fn transposed_move_orders_reach_one_position() {
    let a = play(GameState::new(), &[0, 1, 2]);
    let b = play(GameState::new(), &[2, 1, 0]);
    assert_eq!(a, b);
    assert_eq!(a.key(), b.key());
    let c = play(GameState::new(), &[0, 2, 1]);
    assert_ne!(a, c);
    assert_ne!(a.key(), c.key());
}

#[test]
fn keys_tell_the_side_to_move_apart() {
    let a = GameState::new();
    let mut b = GameState::new();
    b.player = Color::Black;
    assert_ne!(a.key(), b.key());
    assert_eq!(a.key(), 1);
    assert_eq!(b.key(), 2);
    let c = GameState::new().place(&Move::white_new(0));
    // column 0, bottom cell: digit index 5, White; then Black to move
    assert_eq!(c.key(), 3u128.pow(37) + 2);
}
