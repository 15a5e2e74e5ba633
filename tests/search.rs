use mcts::game_state::{Color, End, GameState, Move};
use mcts::monte_carlo::{
    back_propogate, choose_random, get_result_value, optimal_move_most_visisted, run_simulation,
    tree_policy, tree_search, victory, Search, SearchError, TreePolicyResult, UCTData,
};
use mcts::ucb::ucb1;
use rand::rngs::StdRng;
use rand::SeedableRng;
use std::collections::HashMap;

fn play(state: GameState, cols: &[usize]) -> GameState {
    let mut s = state;
    for &x in cols {
        let color = s.side_to_move();
        s = s.place(&Move::new(x, color));
    }
    s
}

fn drawn_board() -> GameState {
    let cols: [[u8; 6]; 7] = [
        [2, 1, 1, 1, 2, 2],
        [2, 1, 2, 2, 1, 2],
        [1, 1, 1, 2, 2, 1],
        [2, 2, 1, 2, 1, 2],
        [2, 1, 1, 1, 2, 1],
        [1, 1, 2, 1, 2, 2],
        [2, 2, 2, 1, 1, 1],
    ];
    let mut s = GameState::new();
    for (x, col) in cols.iter().enumerate() {
        for y in (0..6).rev() {
            let color = if col[y] == 1 { Color::White } else { Color::Black };
            s = s.place(&Move::new(x, color));
        }
    }
    s
}

#[test]
fn victory_marks_finished_games() {
    assert!(victory(End::Victory(Color::White)));
    assert!(victory(End::Victory(Color::Black)));
    assert!(victory(End::Tie));
    assert!(!victory(End::Ongoing));
}

#[test]
fn rewards_in_half_points() {
    assert_eq!(get_result_value(End::Tie, Color::White), 1);
    assert_eq!(get_result_value(End::Victory(Color::White), Color::White), 2);
    assert_eq!(get_result_value(End::Victory(Color::White), Color::Black), 0);
    assert_eq!(get_result_value(End::Ongoing, Color::Black), 0);
}

#[test]
fn ucb1_exact_values() {
    assert_eq!(ucb1(0, 1, 1), 0);
    assert_eq!(ucb1(2, 1, 1), 65536);
    assert_eq!(ucb1(3, 2, 10), 147304);
    assert_eq!(ucb1(3, 2, 100), 188894);
    assert_eq!(ucb1(10, 10, 100), 95262);
}

#[test]
fn ucb1_falls_with_visits_at_a_fixed_rate() {
    assert!(ucb1(6, 4, 10) <= ucb1(3, 2, 10));
    assert_eq!(ucb1(6, 4, 10), 118556);
    assert!(ucb1(30, 20, 10) <= ucb1(6, 4, 10));
    assert!(ucb1(10, 10, 100) < ucb1(2, 2, 100));
}

#[test]
fn ucb1_rises_with_parent_visits() {
    assert!(ucb1(3, 2, 10) <= ucb1(3, 2, 100));
    assert!(ucb1(3, 2, 100) <= ucb1(3, 2, 10000));
    assert!(ucb1(5, 10, 2) <= ucb1(5, 10, 3));
}

#[test]
fn choose_random_picks_from_the_list() {
    let mut rng = StdRng::seed_from_u64(3);
    let moves = vec![Move::white_new(4), Move::white_new(6)];
    for _ in 0..20 {
        let m = choose_random(&mut rng, &moves);
        assert!(m.x == 4 || m.x == 6);
    }
    let single = vec![Move::black_new(2)];
    assert_eq!(choose_random(&mut rng, &single), Move::black_new(2));
}

#[test]
fn playouts_end_in_a_finished_game() {
    for seed in 0..20 {
        let mut rng = StdRng::seed_from_u64(seed);
        let r = run_simulation(GameState::new(), Color::White, &mut rng);
        assert!(victory(r), "seed {}", seed);
    }
}

#[test]
fn playout_of_a_finished_game_is_its_outcome() {
    let mut rng = StdRng::seed_from_u64(1);
    let won = play(GameState::new(), &[0, 0, 1, 1, 2, 2, 3]);
    assert_eq!(run_simulation(won, Color::White, &mut rng), End::Victory(Color::White));
    assert_eq!(run_simulation(drawn_board(), Color::Black, &mut rng), End::Tie);
    // Black has won down column 1; play stops there though White could go on
    let black_won = play(GameState::new(), &[0, 1, 2, 1, 2, 1, 4, 1]);
    for seed in 0..5 {
        let mut rng = StdRng::seed_from_u64(seed);
        assert_eq!(run_simulation(black_won, Color::White, &mut rng), End::Victory(Color::Black));
    }
}

#[test]
fn first_selection_expands_a_child_of_the_root() {
    let mut rng = StdRng::seed_from_u64(5);
    let root = GameState::new();
    let mut stats: HashMap<u128, UCTData> = HashMap::new();
    stats.insert(root.key(), UCTData { wins: 0, num_plays: 0 });
    let r: TreePolicyResult = tree_policy(&root, &stats, &mut rng);
    assert_eq!(r.path.len(), 2);
    assert_eq!(r.path[0], root);
    assert_eq!(r.path[1], r.expanded_node);
    let children: Vec<GameState> =
        root.legal_moves(Color::White).iter().map(|m| root.place(m)).collect();
    assert!(children.contains(&r.expanded_node));
}

#[test]
fn selection_stops_at_a_finished_root() {
    let mut rng = StdRng::seed_from_u64(5);
    let root = drawn_board();
    let stats: HashMap<u128, UCTData> = HashMap::new();
    let r = tree_policy(&root, &stats, &mut rng);
    assert_eq!(r.path, vec![root]);
    assert_eq!(r.expanded_node, root);
}

#[test]
fn selection_takes_the_best_child_when_all_are_expanded() {
    let mut rng = StdRng::seed_from_u64(5);
    let root = GameState::new();
    let mut stats: HashMap<u128, UCTData> = HashMap::new();
    stats.insert(root.key(), UCTData { wins: 0, num_plays: 70 });
    for x in 0..7 {
        let child = root.place(&Move::white_new(x));
        let wins = if x == 5 { 18 } else { 2 };
        stats.insert(child.key(), UCTData { wins, num_plays: 10 });
    }
    let r = tree_policy(&root, &stats, &mut rng);
    assert_eq!(r.path[1], root.place(&Move::white_new(5)));
    assert_eq!(r.path.len(), 3);
}

#[test]
fn back_propagation_credits_the_side_that_moved_in() {
    let root = GameState::new();
    let child = root.place(&Move::white_new(3));
    let unknown = child.place(&Move::black_new(3));
    let mut stats: HashMap<u128, UCTData> = HashMap::new();
    stats.insert(root.key(), UCTData { wins: 0, num_plays: 0 });
    stats.insert(child.key(), UCTData { wins: 1, num_plays: 1 });
    back_propogate(End::Victory(Color::White), &mut stats, &vec![root, child, unknown]);
    assert_eq!(stats[&root.key()], UCTData { wins: 0, num_plays: 1 });
    assert_eq!(stats[&child.key()], UCTData { wins: 3, num_plays: 2 });
    assert!(!stats.contains_key(&unknown.key()));
    back_propogate(End::Tie, &mut stats, &vec![root, child]);
    assert_eq!(stats[&root.key()], UCTData { wins: 1, num_plays: 2 });
    assert_eq!(stats[&child.key()], UCTData { wins: 4, num_plays: 3 });
}

#[test]
fn most_visited_child_is_chosen_and_unexpanded_children_rank_last() {
    let root = GameState::new();
    let mut stats: HashMap<u128, UCTData> = HashMap::new();
    stats.insert(root.key(), UCTData { wins: 0, num_plays: 9 });
    stats.insert(root.place(&Move::white_new(1)).key(), UCTData { wins: 0, num_plays: 4 });
    stats.insert(root.place(&Move::white_new(4)).key(), UCTData { wins: 8, num_plays: 4 });
    stats.insert(root.place(&Move::white_new(6)).key(), UCTData { wins: 2, num_plays: 1 });
    assert_eq!(optimal_move_most_visisted(&root, &stats), Ok(Move::white_new(1)));
    let empty: HashMap<u128, UCTData> = HashMap::new();
    assert_eq!(optimal_move_most_visisted(&root, &empty), Ok(Move::white_new(0)));
    assert_eq!(optimal_move_most_visisted(&drawn_board(), &stats), Err(SearchError::NoLegalMoves));
}

#[test]
fn full_board_has_no_move_to_choose() {
    let mut rng = StdRng::seed_from_u64(9);
    let s = drawn_board();
    assert_eq!(s.win(), End::Tie);
    assert!(s.legal_moves(s.side_to_move()).is_empty());
    assert_eq!(tree_search(s, 100, &mut rng), Err(SearchError::NoLegalMoves));
}

#[test]
fn finished_game_has_no_move_to_choose() {
    let mut rng = StdRng::seed_from_u64(9);
    let won = play(GameState::new(), &[0, 0, 1, 1, 2, 2, 3]);
    assert_eq!(tree_search(won, 100, &mut rng), Err(SearchError::NoLegalMoves));
}

#[test]
fn visits_add_up_to_the_iterations() {
    let mut rng = StdRng::seed_from_u64(11);
    let root = GameState::new();
    let mut search = Search::new(root);
    for _ in 0..300 {
        assert!(search.step(&mut rng));
    }
    assert_eq!(search.iterations(), 300);
    assert_eq!(search.stats_of(&root).unwrap().num_plays, 300);
    let mut total = 0;
    for m in root.legal_moves(Color::White) {
        let d = search.stats_of(&root.place(&m)).unwrap();
        assert!(d.wins <= 2 * d.num_plays);
        total += d.num_plays;
    }
    assert_eq!(total, 300);
}

#[test]
fn transpositions_share_one_statistic() {
    let mut rng = StdRng::seed_from_u64(2);
    let root = GameState::new();
    let mut search = Search::new(root);
    for _ in 0..2000 {
        search.step(&mut rng);
    }
    let a = play(root, &[0, 1, 2]);
    let b = play(root, &[2, 1, 0]);
    assert_eq!(search.stats_of(&a), search.stats_of(&b));
}

#[test]
fn takes_the_winning_move() {
    // White has three in the bottom row and is to move; column 3 wins.
    let s = play(GameState::new(), &[0, 0, 1, 1, 2, 2]);
    assert_eq!(s.side_to_move(), Color::White);
    for seed in 0..3 {
        let mut rng = StdRng::seed_from_u64(seed);
        assert_eq!(tree_search(s, 1000, &mut rng), Ok(Move::white_new(3)));
    }
}

#[test]
fn blocks_the_opponents_win() {
    // Black has three in the bottom row; White must take column 3.
    let s = play(GameState::new(), &[6, 0, 6, 1, 5, 2]);
    assert_eq!(s.side_to_move(), Color::White);
    let mut rng = StdRng::seed_from_u64(4);
    assert_eq!(tree_search(s, 3000, &mut rng), Ok(Move::white_new(3)));
}

#[test]
fn opening_move_is_central() {
    let mut rng = StdRng::seed_from_u64(7);
    let m = tree_search(GameState::new(), 3000, &mut rng).unwrap();
    assert_eq!(m.color, Color::White);
    assert!((2..=4).contains(&m.x), "chose column {}", m.x);
}
