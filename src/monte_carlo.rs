use crate::game_state::{
    key_spec, legal_line, legal_moves_spec, legal_spec, legal_step, lemma_key_bounds,
    lemma_key_identifies, lemma_legal_moves, lemma_moves_left_bound, lemma_place_progress,
    max_game_length, moves_left, next_player, outcome_spec, place_spec, play_line, shaped, Color,
    End, GameState, Move, Position, BOARD_WIDTH,
};
use crate::ucb::{ucb1, ucb_spec, DRAW_REWARD, WIN_REWARD};
use rand::rngs::StdRng;
use std::collections::HashMap;
use vstd::prelude::*;

verus! {

#[verifier::external_type_specification]
#[verifier::external_body]
pub struct ExStdRng(StdRng);

/// Relies on `rand::Rng::gen_range`: a value drawn from `0..n`; it panics
/// only when the range is empty.
#[verifier::external_body]
fn random_index(rng: &mut StdRng, n: usize) -> (r: usize)
    requires
        n > 0,
    ensures
        r < n,
{
    rand::Rng::gen_range(rng, 0..n)
}

/// A finished game: someone won, or the board is full.
pub open spec fn is_over(end: End) -> bool {
    end is Victory || end is Tie
}

/// Play cannot go on from `q`: it is over, or the side to move has no move.
pub open spec fn settled(q: Position) -> bool {
    is_over(outcome_spec(q)) || legal_moves_spec(q, q.player).len() == 0
}

/// Play could go on from every position before the last one of `ms`.
pub open spec fn unsettled_before(start: Position, ms: Seq<Move>) -> bool {
    forall|i: int| 0 <= i < ms.len() ==> !settled(#[trigger] play_line(start, ms.take(i)))
}

/// `ms` is a playout from `start` that stops at the first position where
/// play cannot go on, within the moves left in `start`, with outcome `r`.
/// From a position where play cannot go on, the playout plays nothing.
pub open spec fn playout(start: Position, ms: Seq<Move>, r: End) -> bool {
    &&& legal_line(start, ms)
    &&& unsettled_before(start, ms)
    &&& ms.len() <= moves_left(start)
    &&& ms.len() <= max_game_length()
    &&& settled(play_line(start, ms))
    &&& r == outcome_spec(play_line(start, ms))
}

/// Statistics of one position: the total reward of the playouts through it,
/// counted in half points (a win `WIN_REWARD`, a draw `DRAW_REWARD`, a loss
/// nothing), and how many playouts there were.
#[derive(Debug, Copy, Clone, PartialEq, Eq, Structural)]
pub struct UCTData {
    pub wins: u64,
    pub num_plays: u64,
}

impl UCTData {
    fn new(w: u64, n: u64) -> (r: UCTData)
        ensures
            r == (UCTData { wins: w, num_plays: n }),
    {
        UCTData { wins: w, num_plays: n }
    }
}

/// What one walk of the selection policy produced: the positions visited,
/// root first, and the position it ended on.
pub struct TreePolicyResult {
    pub path: Vec<GameState>,
    pub expanded_node: GameState,
}

impl TreePolicyResult {
    pub fn new(path: Vec<GameState>, expanded_node: GameState) -> (r: TreePolicyResult)
        ensures
            r.path@ == path@,
            r.expanded_node == expanded_node,
    {
        TreePolicyResult { path, expanded_node }
    }
}

/// The most playouts any statistic may count; it keeps sums of rewards
/// within 64 bits.
pub const PLAY_LIMIT: u64 = 0x3fff_ffff_ffff_ffff;

/// The key of a position in a table of statistics.
pub open spec fn key_of(p: Position) -> u128 {
    key_spec(p) as u128
}

/// Total reward never exceeds a win on every playout.
pub open spec fn entry_ok(d: UCTData) -> bool {
    d.wins <= WIN_REWARD * d.num_plays
}

/// Every statistic is sound and has counted at most `bound` playouts.
pub open spec fn table_ok(m: Map<u128, UCTData>, bound: nat) -> bool {
    forall|k: u128| #[trigger] m.contains_key(k) ==> entry_ok(m[k]) && m[k].num_plays <= bound
}

proof fn lemma_table_ok_weaken(m: Map<u128, UCTData>, b1: nat, b2: nat)
    requires
        table_ok(m, b1),
        b1 <= b2,
    ensures
        table_ok(m, b2),
{
}

/// The reward of an outcome for `player`.
pub open spec fn reward_spec(result: End, player: Color) -> nat {
    match result {
        End::Tie => DRAW_REWARD as nat,
        End::Victory(c) => if c == player {
            WIN_REWARD as nat
        } else {
            0
        },
        End::Ongoing => 0,
    }
}

/// The side that moved into `p`.
pub open spec fn mover(p: Position) -> Color {
    next_player(p.player)
}

/// `m` after one playout with outcome `result` was counted for `p`, if `p`
/// has a statistic; otherwise `m` unchanged.
pub open spec fn credit(m: Map<u128, UCTData>, result: End, p: Position) -> Map<u128, UCTData> {
    let k = key_of(p);
    if m.contains_key(k) {
        m.insert(
            k,
            UCTData {
                wins: (m[k].wins + reward_spec(result, mover(p))) as u64,
                num_plays: (m[k].num_plays + 1) as u64,
            },
        )
    } else {
        m
    }
}

/// `m` after the playout was counted for each position of `path` in turn.
pub open spec fn backprop_spec(m: Map<u128, UCTData>, result: End, path: Seq<GameState>) -> Map<
    u128,
    UCTData,
>
    decreases path.len(),
{
    if path.len() == 0 {
        m
    } else {
        credit(backprop_spec(m, result, path.drop_last()), result, path.last()@)
    }
}

/// Nothing is left to expand or simulate from `p`.
pub open spec fn is_leaf(p: Position) -> bool {
    legal_moves_spec(p, p.player).len() == 0 || is_over(outcome_spec(p))
}

/// `q` has a statistic, that is, it was expanded.
pub open spec fn explored(m: Map<u128, UCTData>, q: Position) -> bool {
    m.contains_key(key_of(q))
}

/// The child of `p` by its `i`-th legal move.
pub open spec fn child(p: Position, i: int) -> Position {
    place_spec(p, legal_moves_spec(p, p.player)[i])
}

/// Every child of `p` was expanded.
pub open spec fn fully_explored(m: Map<u128, UCTData>, p: Position) -> bool {
    forall|i: int| 0 <= i < legal_moves_spec(p, p.player).len() ==> explored(m, #[trigger] child(p, i))
}

/// The playouts counted for `p`; none where it has no statistic.
pub open spec fn visits_of(m: Map<u128, UCTData>, p: Position) -> nat {
    if explored(m, p) {
        m[key_of(p)].num_plays as nat
    } else {
        0
    }
}

/// The selection rank of a child `q` under a parent visited `parent` times:
/// one more than its UCB1 score, or 0, the worst, where the score is not
/// defined (no statistic, or no visits of either).
pub open spec fn rank(m: Map<u128, UCTData>, parent: nat, q: Position) -> nat {
    let k = key_of(q);
    if m.contains_key(k) && m[k].num_plays >= 1 && parent >= 1 {
        ucb_spec(m[k].wins as nat, m[k].num_plays as nat, parent) + 1
    } else {
        0
    }
}

/// The rank of the `i`-th child of `p`.
pub open spec fn child_rank_spec(m: Map<u128, UCTData>, p: Position, i: int) -> nat {
    rank(m, visits_of(m, p), child(p, i))
}

/// `j` is the first child of `p` with the greatest rank.
pub open spec fn first_best(m: Map<u128, UCTData>, p: Position, j: int) -> bool {
    &&& 0 <= j < legal_moves_spec(p, p.player).len()
    &&& forall|i: int|
        0 <= i < legal_moves_spec(p, p.player).len() ==> #[trigger] child_rank_spec(m, p, i)
            <= child_rank_spec(m, p, j)
    &&& forall|i: int| 0 <= i < j ==> #[trigger] child_rank_spec(m, p, i) < child_rank_spec(m, p, j)
}

/// One step of the selection walk, from `p` to `q`: through the child of
/// best rank when every child was expanded, else to a child not expanded.
pub open spec fn descend_ok(m: Map<u128, UCTData>, p: Position, q: Position) -> bool {
    &&& !is_leaf(p)
    &&& if fully_explored(m, p) {
        exists|j: int| #[trigger] first_best(m, p, j) && q == child(p, j)
    } else {
        exists|i: int|
            0 <= i < legal_moves_spec(p, p.player).len() && q == #[trigger] child(p, i) && !explored(
                m,
                q,
            )
    }
}

/// `path` is a selection walk from `root` over the statistics `m`.
#[verifier::opaque]
pub open spec fn selection_walk(m: Map<u128, UCTData>, root: GameState, path: Seq<GameState>) -> bool {
    &&& path.len() >= 1
    &&& path[0] == root
    &&& forall|i: int| 0 <= i < path.len() - 1 ==> descend_ok(m, #[trigger] path[i]@, path[i + 1]@)
    &&& forall|i: int| 0 <= i < path.len() - 2 ==> fully_explored(m, #[trigger] path[i]@)
    &&& is_leaf(path.last()@) || (path.len() >= 2 && !fully_explored(m, path[path.len() - 2]@))
    &&& path.len() <= moves_left(root@) + 1
}

pub fn victory(end: End) -> (r: bool)
    ensures
        r == is_over(end),
{
    match end {
        End::Victory(_) => true,
        End::Tie => true,
        _ => false,
    }
}

/// One of `possible_moves`, drawn at random.
pub fn choose_random(rng: &mut StdRng, possible_moves: &Vec<Move>) -> (r: Move)
    requires
        possible_moves@.len() > 0,
    ensures
        possible_moves@.contains(r),
{
    let i = random_index(rng, possible_moves.len());
    possible_moves[i]
}

/// Plays random legal moves for both sides from `state` until the game is
/// over or the side to move has no move, and returns the final outcome.
/// `player` is the side the search evaluates for; the playout itself does
/// not depend on it.
pub fn run_simulation(state: GameState, player: Color, rng: &mut StdRng) -> (r: End)
    ensures
        exists|ms: Seq<Move>| #[trigger] playout(state@, ms, r),
        settled(state@) ==> r == outcome_spec(state@),
{
    let mut current_state = state;
    let ghost mut ms: Seq<Move> = Seq::empty();
    proof {
        state.lemma_shaped();
        lemma_moves_left_bound(state@);
        assert(ms.take(0) =~= ms);
    }
    while !victory(current_state.win())
        invariant
            current_state@ == play_line(state@, ms),
            legal_line(state@, ms),
            unsettled_before(state@, ms),
            ms.len() + moves_left(current_state@) <= moves_left(state@),
            0 <= moves_left(current_state@),
        ensures
            current_state@ == play_line(state@, ms),
            legal_line(state@, ms),
            unsettled_before(state@, ms),
            ms.len() <= moves_left(state@),
            settled(current_state@),
        decreases moves_left(current_state@),
    {
        let current_player = current_state.side_to_move();
        let possible_moves = current_state.legal_moves(current_player);
        if possible_moves.len() < 1 {
            break;
        }
        let random_move = choose_random(rng, &possible_moves);
        proof {
            current_state.lemma_shaped();
            lemma_legal_moves(current_state@, current_player, BOARD_WIDTH as nat);
            let k = choose|k: int| 0 <= k < possible_moves@.len() && possible_moves@[k] == random_move;
            assert(possible_moves@[k] == random_move);
            lemma_place_progress(current_state@, random_move);
            let ms2 = ms.push(random_move);
            assert(ms2.drop_last() =~= ms);
            assert forall|i: int| 0 <= i < ms2.len() implies #[trigger] legal_step(
                play_line(state@, ms2.take(i)),
                ms2[i],
            ) by {
                if i < ms.len() {
                    assert(ms2.take(i) =~= ms.take(i));
                    assert(legal_step(play_line(state@, ms.take(i)), ms[i]));
                } else {
                    assert(ms2.take(i) =~= ms);
                }
            }
            assert(!settled(current_state@));
            assert forall|i: int| 0 <= i < ms2.len() implies !settled(
                #[trigger] play_line(state@, ms2.take(i)),
            ) by {
                if i < ms.len() {
                    assert(ms2.take(i) =~= ms.take(i));
                } else {
                    assert(ms2.take(i) =~= ms);
                }
            }
            ms = ms2;
        }
        let ghost before = current_state@;
        current_state = current_state.place(&random_move);
        proof {
            current_state.lemma_shaped();
            lemma_moves_left_bound(current_state@);
        }
    }
    let r = current_state.win();
    proof {
        assert(playout(state@, ms, r));
        if settled(state@) && ms.len() > 0 {
            assert(ms.take(0) =~= Seq::<Move>::empty());
            assert(!settled(play_line(state@, ms.take(0))));
        }
    }
    r
}

/// The rank of `child` under a parent visited `parent` times.
fn child_rank(stats: &HashMap<u128, UCTData>, parent: u64, child: &GameState) -> (r: u128)
    ensures
        r == rank(stats@, parent as nat, child@),
{
    match stats.get(&child.key()) {
        Some(d) => {
            if d.num_plays >= 1 && parent >= 1 {
                ucb1(d.wins, d.num_plays, parent) + 1
            } else {
                0
            }
        },
        None => 0,
    }
}

/// The moves of `possible_moves`, the legal moves of `node`, whose
/// resulting position was not expanded, in column order.
fn unexplored_moves(node: &GameState, possible_moves: &Vec<Move>, stats: &HashMap<u128, UCTData>) -> (r: Vec<Move>)
    requires
        possible_moves@ == legal_moves_spec(node@, node@.player),
    ensures
        (r@.len() == 0) == fully_explored(stats@, node@),
        forall|t: int| 0 <= t < r@.len() ==> exists|i: int|
            0 <= i < possible_moves@.len() && #[trigger] r@[t] == possible_moves@[i] && !explored(stats@, child(node@, i)),
{
    let ghost m = stats@;
    let ghost p = node@;
    let current_node = *node;
    let mut not_explored: Vec<Move> = Vec::new();
    for j in 0..possible_moves.len()
        invariant
            possible_moves@ == legal_moves_spec(p, p.player),
            p == current_node@,
            m == stats@,
            (not_explored@.len() == 0) == (forall|i: int| 0 <= i < j ==> explored(m, #[trigger] child(p, i))),
            forall|t: int| 0 <= t < not_explored@.len() ==> exists|i: int|
                0 <= i < j && #[trigger] not_explored@[t] == possible_moves@[i] && !explored(m, child(p, i)),
    {
        let next = current_node.place(&possible_moves[j]);
        assert(next@ == child(p, j as int));
        let ghost before = not_explored@;
        if !stats.contains_key(&next.key()) {
            not_explored.push(possible_moves[j]);
            proof {
                let t = not_explored@.len() - 1;
                assert(not_explored@[t] == possible_moves@[j as int]);
                assert forall|t2: int| 0 <= t2 < not_explored@.len() implies exists|i: int|
                    0 <= i < j + 1 && #[trigger] not_explored@[t2] == possible_moves@[i] && !explored(m, child(p, i)) by {
                    if t2 < before.len() {
                        assert(not_explored@[t2] == before[t2]);
                    }
                }
            }
        } else {
            assert(explored(m, child(p, j as int)));
            assert((not_explored@.len() == 0) == (forall|i: int| 0 <= i < j + 1 ==> explored(m, #[trigger] child(p, i))));
        }
    }
    not_explored
}

/// The index of the first child of `node` with the greatest UCB1 rank;
/// `possible_moves` are its legal moves, and there is at least one.
fn best_child(node: &GameState, possible_moves: &Vec<Move>, stats: &HashMap<u128, UCTData>) -> (r: usize)
    requires
        possible_moves@ == legal_moves_spec(node@, node@.player),
        possible_moves@.len() > 0,
    ensures
        first_best(stats@, node@, r as int),
{
    let ghost m = stats@;
    let ghost p = node@;
    let current_node = *node;
    let parent_visits = match stats.get(&current_node.key()) {
        Some(d) => d.num_plays,
        None => 0,
    };
    assert(parent_visits == visits_of(m, p));
    let mut best: usize = 0;
    let first = current_node.place(&possible_moves[0]);
    let mut best_rank = child_rank(stats, parent_visits, &first);
    for j in 1..possible_moves.len()
        invariant
            possible_moves@ == legal_moves_spec(p, p.player),
            p == current_node@,
            m == stats@,
            parent_visits == visits_of(m, p),
            best < j,
            best_rank == child_rank_spec(m, p, best as int),
            forall|i: int| 0 <= i < j ==> #[trigger] child_rank_spec(m, p, i) <= best_rank,
            forall|i: int| 0 <= i < best ==> #[trigger] child_rank_spec(m, p, i) < best_rank,
    {
        let next = current_node.place(&possible_moves[j]);
        let uct = child_rank(stats, parent_visits, &next);
        if uct > best_rank {
            best_rank = uct;
            best = j;
        }
    }
    best
}

/// Walks from `current_state` through expanded positions, taking the child
/// of best UCB1 rank wherever every child was expanded, until it reaches a
/// leaf or expands a random child that was not expanded yet.
pub fn tree_policy(
    current_state: &GameState,
    stats: &HashMap<u128, UCTData>,
    rng: &mut StdRng,
) -> (r: TreePolicyResult)
    ensures
        selection_walk(stats@, *current_state, r.path@),
        1 <= r.path@.len() <= moves_left(current_state@) + 1,
        r.expanded_node == r.path@.last(),
{
    let ghost m = stats@;
    let mut path: Vec<GameState> = Vec::new();
    let mut current_node = *current_state;
    proof {
        current_state.lemma_shaped();
        lemma_moves_left_bound(current_state@);
    }
    loop
        invariant
            m == stats@,
            path@.len() + moves_left(current_node@) <= moves_left(current_state@),
            0 <= moves_left(current_node@),
            path@.len() == 0 ==> current_node == *current_state,
            path@.len() > 0 ==> path@[0] == *current_state && descend_ok(m, path@.last()@, current_node@),
            forall|i: int| 0 <= i < path@.len() - 1 ==> descend_ok(m, #[trigger] path@[i]@, path@[i + 1]@),
            forall|i: int| 0 <= i < path@.len() ==> fully_explored(m, #[trigger] path@[i]@),
        decreases moves_left(current_node@),
    {
        let ghost before = path@;
        path.push(current_node);
        proof {
            assert forall|i: int| 0 <= i < path@.len() - 1 implies descend_ok(m, #[trigger] path@[i]@, path@[i + 1]@) by {
                if i < before.len() - 1 {
                    assert(path@[i] == before[i] && path@[i + 1] == before[i + 1]);
                } else {
                    assert(path@[i] == before.last());
                }
            }
            current_node.lemma_shaped();
        }
        let ghost p = current_node@;
        let player = current_node.side_to_move();
        let possible_moves = current_node.legal_moves(player);
        proof {
            lemma_legal_moves(p, player, BOARD_WIDTH as nat);
        }
        if possible_moves.len() < 1 || victory(current_node.win()) {
            proof {
                reveal(selection_walk);
            }
            return TreePolicyResult::new(path, current_node);
        }
        let not_explored = unexplored_moves(&current_node, &possible_moves, stats);
        if not_explored.len() > 0 {
            let random_choice = choose_random(rng, &not_explored);
            let chosen_node = current_node.place(&random_choice);
            proof {
                let t = choose|t: int| 0 <= t < not_explored@.len() && not_explored@[t] == random_choice;
                let i = choose|i: int|
                    0 <= i < possible_moves@.len() && #[trigger] not_explored@[t] == possible_moves@[i] && !explored(m, child(p, i));
                assert(chosen_node@ == child(p, i));
                lemma_place_progress(p, random_choice);
                lemma_moves_left_bound(chosen_node@);
                assert(descend_ok(m, p, chosen_node@));
            }
            let ghost mid = path@;
            path.push(chosen_node);
            proof {
                assert forall|i: int| 0 <= i < path@.len() - 1 implies descend_ok(m, #[trigger] path@[i]@, path@[i + 1]@) by {
                    if i < mid.len() - 1 {
                        assert(path@[i] == mid[i] && path@[i + 1] == mid[i + 1]);
                    } else {
                        assert(path@[i] == mid.last());
                    }
                }
                assert forall|i: int| 0 <= i < path@.len() - 2 implies fully_explored(m, #[trigger] path@[i]@) by {
                    assert(path@[i] == before[i]);
                }
            }
            proof {
                reveal(selection_walk);
            }
            return TreePolicyResult::new(path, chosen_node);
        }
        let best = best_child(&current_node, &possible_moves, stats);
        let best_move = possible_moves[best];
        let chosen_node = current_node.place(&best_move);
        proof {
            assert(fully_explored(m, p));
            assert(descend_ok(m, p, chosen_node@));
            lemma_place_progress(p, best_move);
            lemma_moves_left_bound(chosen_node@);
        }
        current_node = chosen_node;
    }
}

/// `m` with a fresh statistic for `q`, unless `q` already has one.
pub open spec fn expand_spec(m: Map<u128, UCTData>, q: Position) -> Map<u128, UCTData> {
    if m.contains_key(key_of(q)) {
        m
    } else {
        m.insert(key_of(q), UCTData { wins: 0, num_plays: 0 })
    }
}

/// One search iteration over the statistics `m` from `root` gives `m2`:
/// the selection walk `path`, expansion of its last position, a playout
/// from there with outcome `r`, and back-propagation along `path`.
pub open spec fn iteration_spec(
    m: Map<u128, UCTData>,
    root: GameState,
    path: Seq<GameState>,
    r: End,
    m2: Map<u128, UCTData>,
) -> bool {
    &&& selection_walk(m, root, path)
    &&& exists|ms: Seq<Move>| #[trigger] playout(path.last()@, ms, r)
    &&& m2 == backprop_spec(expand_spec(m, path.last()@), r, path)
}

/// The statistics of a search from `root` before its first iteration: the
/// root alone, with no playouts.
pub open spec fn initial_table(root: GameState) -> Map<u128, UCTData> {
    Map::<u128, UCTData>::empty().insert(key_of(root@), UCTData { wins: 0, num_plays: 0 })
}

/// `m` can be the statistics of a search from `root` after `n` iterations:
/// a sequence of tables from `initial_table(root)` in which each one
/// follows from the one before by an iteration.
pub open spec fn search_table(root: GameState, n: nat, m: Map<u128, UCTData>) -> bool
    decreases n,
{
    if n == 0 {
        m == initial_table(root)
    } else {
        exists|prev: Map<u128, UCTData>, path: Seq<GameState>, r: End|
            #[trigger] iteration_spec(prev, root, path, r, m) && search_table(root, (n - 1) as nat, prev)
    }
}

/// The longest selection walk.
pub const MAX_PATH: u64 = 44;

/// The most iterations one search runs.
pub const ITERATION_LIMIT: u64 = 0xffff_ffff;

/// The reasons a move cannot be chosen.
#[derive(Debug, Copy, Clone, PartialEq, Eq, Structural)]
pub enum SearchError {
    /// The root is over or its side to move has no legal move.
    NoLegalMoves,
}

/// The rank of a child when the move is chosen: one more than its visits,
/// or 0, the worst, if it was never expanded.
pub open spec fn visit_rank(m: Map<u128, UCTData>, q: Position) -> nat {
    if m.contains_key(key_of(q)) {
        m[key_of(q)].num_plays as nat + 1
    } else {
        0
    }
}

/// The visit rank of the `i`-th child of `p`.
pub open spec fn child_visit_rank(m: Map<u128, UCTData>, p: Position, i: int) -> nat {
    visit_rank(m, child(p, i))
}

/// `j` is the first child of `p` with the most visits.
pub open spec fn most_visited(m: Map<u128, UCTData>, p: Position, j: int) -> bool {
    &&& 0 <= j < legal_moves_spec(p, p.player).len()
    &&& forall|i: int|
        0 <= i < legal_moves_spec(p, p.player).len() ==> #[trigger] child_visit_rank(m, p, i)
            <= child_visit_rank(m, p, j)
    &&& forall|i: int| 0 <= i < j ==> #[trigger] child_visit_rank(m, p, i) < child_visit_rank(m, p, j)
}

/// The move of `root` whose resulting position has the most visits, the
/// first such in column order; a child without a statistic ranks last.
/// Fails when the root is over or has no legal move.
pub fn optimal_move_most_visisted(root: &GameState, stats: &HashMap<u128, UCTData>) -> (r: Result<
    Move,
    SearchError,
>)
    ensures
        r is Err <==> is_leaf(root@),
        r is Err ==> r == Err::<Move, SearchError>(SearchError::NoLegalMoves),
        r matches Ok(mv) ==> exists|j: int|
            #[trigger] most_visited(stats@, root@, j) && mv == legal_moves_spec(root@, root@.player)[j],
{
    let ghost p = root@;
    let possible_moves = root.legal_moves(root.side_to_move());
    if possible_moves.len() < 1 || victory(root.win()) {
        return Err(SearchError::NoLegalMoves);
    }
    let mut best: usize = 0;
    let mut most_played: u64 = 0;
    let mut best_known = false;
    for j in 0..possible_moves.len()
        invariant
            possible_moves@ == legal_moves_spec(p, p.player),
            p == root@,
            possible_moves@.len() > 0,
            j > 0 ==> best < j,
            j == 0 ==> best == 0 && !best_known,
            best_known ==> stats@.contains_key(key_of(child(p, best as int))) && most_played
                == stats@[key_of(child(p, best as int))].num_plays,
            j > 0 ==> (best_known == (child_visit_rank(stats@, p, best as int) > 0)),
            forall|i: int| 0 <= i < j ==> #[trigger] child_visit_rank(stats@, p, i) <= child_visit_rank(stats@, p, best as int),
            forall|i: int| 0 <= i < best ==> #[trigger] child_visit_rank(stats@, p, i) < child_visit_rank(stats@, p, best as int),
    {
        let next = root.place(&possible_moves[j]);
        match stats.get(&next.key()) {
            Some(data) => {
                if !best_known || data.num_plays > most_played {
                    most_played = data.num_plays;
                    best = j;
                    best_known = true;
                }
            },
            None => {},
        }
    }
    let best_move = possible_moves[best];
    proof {
        assert(most_visited(stats@, p, best as int));
    }
    Ok(best_move)
}

proof fn lemma_backprop_dom(m: Map<u128, UCTData>, result: End, path: Seq<GameState>)
    ensures
        backprop_spec(m, result, path).dom() == m.dom(),
    decreases path.len(),
{
    if path.len() > 0 {
        lemma_backprop_dom(m, result, path.drop_last());
        let prev = backprop_spec(m, result, path.drop_last());
        let k = key_of(path.last()@);
        if prev.contains_key(k) {
            assert(prev.insert(k, credit(prev, result, path.last()@)[k]).dom() =~= prev.dom());
        }
    }
}

/// How many positions of `path` have the key `k`.
pub open spec fn key_count(path: Seq<GameState>, k: u128) -> nat
    decreases path.len(),
{
    if path.len() == 0 {
        0
    } else {
        key_count(path.drop_last(), k) + if key_of(path.last()@) == k {
            1nat
        } else {
            0nat
        }
    }
}

proof fn lemma_key_count_bound(path: Seq<GameState>, k: u128)
    ensures
        key_count(path, k) <= path.len(),
    decreases path.len(),
{
    if path.len() > 0 {
        lemma_key_count_bound(path.drop_last(), k);
    }
}

/// Back-propagation adds one visit to a statistic for each position of the
/// path that has its key.
proof fn lemma_backprop_visits(m: Map<u128, UCTData>, result: End, path: Seq<GameState>, k: u128)
    requires
        m.contains_key(k),
        m[k].num_plays + path.len() <= PLAY_LIMIT,
    ensures
        backprop_spec(m, result, path).contains_key(k),
        backprop_spec(m, result, path)[k].num_plays == m[k].num_plays + key_count(path, k),
    decreases path.len(),
{
    if path.len() > 0 {
        lemma_backprop_visits(m, result, path.drop_last(), k);
        lemma_key_count_bound(path.drop_last(), k);
    }
}

/// A step of the selection walk plays a legal move, so fewer moves are left.
proof fn lemma_descend_progress(m: Map<u128, UCTData>, p: GameState, q: GameState)
    requires
        descend_ok(m, p@, q@),
    ensures
        moves_left(q@) < moves_left(p@),
{
    p.lemma_shaped();
    let moves = legal_moves_spec(p@, p@.player);
    lemma_legal_moves(p@, p@.player, BOARD_WIDTH as nat);
    let i = if fully_explored(m, p@) {
        choose|j: int| #[trigger] first_best(m, p@, j) && q@ == child(p@, j)
    } else {
        choose|i: int| 0 <= i < moves.len() && q@ == #[trigger] child(p@, i) && !explored(m, q@)
    };
    assert(moves[i].color == p@.player && legal_spec(p@, moves[i]));
    lemma_place_progress(p@, moves[i]);
}

/// Along a selection walk fewer and fewer moves are left.
proof fn lemma_walk_progress(m: Map<u128, UCTData>, root: GameState, path: Seq<GameState>, j: int)
    requires
        selection_walk(m, root, path),
        1 <= j < path.len(),
    ensures
        moves_left(path[j]@) < moves_left(root@),
        j >= 2 ==> moves_left(path[j]@) < moves_left(path[1]@),
    decreases j,
{
    reveal(selection_walk);
    lemma_descend_progress(m, path[j - 1], path[j]);
    if j >= 2 {
        lemma_walk_progress(m, root, path, j - 1);
    }
}

/// The root is on a selection walk exactly once.
proof fn lemma_walk_root_once(m: Map<u128, UCTData>, root: GameState, path: Seq<GameState>, n: nat)
    requires
        selection_walk(m, root, path),
        1 <= n <= path.len(),
    ensures
        key_count(path.take(n as int), key_of(root@)) == 1,
    decreases n,
{
    reveal(selection_walk);
    let k = key_of(root@);
    if n == 1 {
        assert(path.take(1).drop_last() =~= Seq::<GameState>::empty());
        assert(path.take(1).last() == root);
        assert(key_count(Seq::<GameState>::empty(), k) == 0);
    } else {
        lemma_walk_root_once(m, root, path, (n - 1) as nat);
        assert(path.take(n as int).drop_last() =~= path.take(n - 1));
        let q = path[n - 1];
        lemma_walk_progress(m, root, path, n - 1);
        root.lemma_shaped();
        q.lemma_shaped();
        lemma_key_identifies(q@, root@);
        lemma_key_bounds(q@);
        lemma_key_bounds(root@);
        assert(q@ != root@);
        assert(key_spec(q@) != key_spec(root@));
        assert(key_of(q@) != k);
        assert(path.take(n as int).last() == q);
    }
}

/// Visits of the first `n` children of `p`, counted by their statistics.
pub open spec fn children_visits(m: Map<u128, UCTData>, p: Position, n: nat) -> nat
    decreases n,
{
    if n == 0 {
        0
    } else {
        children_visits(m, p, (n - 1) as nat) + visits_of(m, child(p, n - 1))
    }
}

/// Distinct positions have distinct keys.
proof fn lemma_key_ne(p: GameState, q: Position)
    requires
        shaped(q),
        p@ != q,
    ensures
        key_of(p@) != key_of(q),
{
    p.lemma_shaped();
    lemma_key_identifies(p@, q);
    lemma_key_bounds(p@);
    lemma_key_bounds(q);
}

/// A child of `p` has one move fewer left than `p`.
proof fn lemma_child_moves_left(p: GameState, i: int)
    requires
        p@.player != Color::Empty,
        0 <= i < legal_moves_spec(p@, p@.player).len(),
    ensures
        shaped(child(p@, i)),
        moves_left(child(p@, i)) == moves_left(p@) - 1,
{
    p.lemma_shaped();
    lemma_legal_moves(p@, p@.player, BOARD_WIDTH as nat);
    lemma_place_progress(p@, legal_moves_spec(p@, p@.player)[i]);
}

/// Different moves of the side to move lead to different children.
proof fn lemma_children_distinct(p: GameState, i: int, j: int)
    requires
        p@.player != Color::Empty,
        0 <= i < legal_moves_spec(p@, p@.player).len(),
        0 <= j < legal_moves_spec(p@, p@.player).len(),
        i != j,
    ensures
        key_of(child(p@, i)) != key_of(child(p@, j)),
{
    p.lemma_shaped();
    let moves = legal_moves_spec(p@, p@.player);
    lemma_legal_moves(p@, p@.player, BOARD_WIDTH as nat);
    let mi = moves[i];
    let mj = moves[j];
    assert(mi.x != mj.x);
    lemma_place_progress(p@, mi);
    lemma_place_progress(p@, mj);
    let ci = child(p@, i);
    let cj = child(p@, j);
    assert(ci.cols[mi.x as int] != cj.cols[mi.x as int]);
    assert(ci != cj);
    lemma_key_identifies(ci, cj);
    lemma_key_bounds(ci);
    lemma_key_bounds(cj);
}

/// On a selection walk from `root`, only the second position can share a
/// key with a child of the root.
proof fn lemma_walk_child_count(m: Map<u128, UCTData>, root: GameState, path: Seq<GameState>, i: int, n: nat)
    requires
        selection_walk(m, root, path),
        root@.player != Color::Empty,
        0 <= i < legal_moves_spec(root@, root@.player).len(),
        n <= path.len(),
    ensures
        key_count(path.take(n as int), key_of(child(root@, i))) == if n >= 2 && key_of(path[1]@)
            == key_of(child(root@, i)) {
            1nat
        } else {
            0nat
        },
    decreases n,
{
    reveal(selection_walk);
    let c = child(root@, i);
    lemma_child_moves_left(root, i);
    if n == 0 {
        assert(path.take(0) =~= Seq::<GameState>::empty());
    } else {
        lemma_walk_child_count(m, root, path, i, (n - 1) as nat);
        assert(path.take(n as int).drop_last() =~= path.take(n - 1));
        assert(path.take(n as int).last() == path[n - 1]);
        if n == 1 {
            lemma_key_ne(root, c);
        } else if n > 2 {
            lemma_walk_progress(m, root, path, n - 1);
            lemma_walk_progress(m, root, path, 1);
            lemma_descend_progress(m, path[0], path[1]);
            let k = if fully_explored(m, root@) {
                choose|j: int| #[trigger] first_best(m, root@, j) && path[1]@ == child(root@, j)
            } else {
                choose|j: int|
                    0 <= j < legal_moves_spec(root@, root@.player).len() && path[1]@ == #[trigger] child(
                        root@,
                        j,
                    ) && !explored(m, path[1]@)
            };
            lemma_child_moves_left(root, k);
            lemma_key_ne(path[n - 1], c);
        }
    }
}

/// One iteration adds exactly one visit over the children of a root that is
/// not a leaf: to the child `i0` that the walk went through.
proof fn lemma_iteration_children(
    m0: Map<u128, UCTData>,
    root: GameState,
    path: Seq<GameState>,
    result: End,
    i0: int,
    n: nat,
)
    requires
        selection_walk(m0, root, path),
        !is_leaf(root@),
        root@.player != Color::Empty,
        path.len() >= 2,
        0 <= i0 < legal_moves_spec(root@, root@.player).len(),
        path[1]@ == child(root@, i0),
        n <= legal_moves_spec(root@, root@.player).len(),
        table_ok(expand_spec(m0, path.last()@), (PLAY_LIMIT - path.len()) as nat),
    ensures
        children_visits(backprop_spec(expand_spec(m0, path.last()@), result, path), root@, n)
            == children_visits(m0, root@, n) + if i0 < n {
            1nat
        } else {
            0nat
        },
    decreases n,
{
    if n > 0 {
        lemma_iteration_children(m0, root, path, result, i0, (n - 1) as nat);
        reveal(selection_walk);
        let i = n - 1;
        let c = child(root@, i);
        let k = key_of(c);
        let m1 = expand_spec(m0, path.last()@);
        let m2 = backprop_spec(m1, result, path);
        assert(visits_of(m1, c) == visits_of(m0, c));
        lemma_walk_child_count(m0, root, path, i, path.len());
        assert(path.take(path.len() as int) =~= path);
        if i != i0 {
            lemma_children_distinct(root, i, i0);
        }
        if path.len() > 2 {
            assert(fully_explored(m0, path[0]@));
            assert(explored(m0, child(root@, i0)));
        }
        if m1.contains_key(k) {
            lemma_backprop_visits(m1, result, path, k);
        } else {
            lemma_backprop_dom(m1, result, path);
            assert(!m2.contains_key(k));
        }
    }
}

/// No child of `p` has a statistic in a table that holds only `p`.
proof fn lemma_children_unvisited(p: GameState, n: nat)
    requires
        p@.player != Color::Empty,
        n <= legal_moves_spec(p@, p@.player).len(),
    ensures
        children_visits(
            Map::<u128, UCTData>::empty().insert(key_of(p@), UCTData { wins: 0, num_plays: 0 }),
            p@,
            n,
        ) == 0,
    decreases n,
{
    if n > 0 {
        lemma_children_unvisited(p, (n - 1) as nat);
        lemma_child_moves_left(p, n - 1);
        lemma_key_ne(p, child(p@, n - 1));
    }
}

proof fn lemma_backprop_table_ok(m: Map<u128, UCTData>, result: End, path: Seq<GameState>, b: nat)
    requires
        table_ok(m, b),
        b + path.len() <= PLAY_LIMIT,
    ensures
        table_ok(backprop_spec(m, result, path), b + path.len()),
    decreases path.len(),
{
    if path.len() > 0 {
        lemma_backprop_table_ok(m, result, path.drop_last(), b);
        let prev = backprop_spec(m, result, path.drop_last());
        let next = backprop_spec(m, result, path);
        let k = key_of(path.last()@);
        assert forall|k2: u128| #[trigger] next.contains_key(k2) implies entry_ok(next[k2])
            && next[k2].num_plays <= b + path.len() by {
            if k2 != k {
                assert(prev.contains_key(k2));
            }
        }
    }
}

/// What a table of statistics from `root` holds after `n` iterations: every
/// statistic is sound and has counted at most `MAX_PATH` playouts per
/// iteration; the root has a statistic with one playout per iteration; and
/// when the root is not a leaf and a side is to move, each iteration went
/// through exactly one of its children, so their visits add up to `n`.
/// (With `Empty` to move every child is the same position.)
pub open spec fn table_wf(root: GameState, m: Map<u128, UCTData>, n: nat) -> bool {
    let p = root@;
    &&& table_ok(m, (MAX_PATH as nat) * n)
    &&& m.contains_key(key_of(p))
    &&& m[key_of(p)].num_plays == n
    &&& !is_leaf(p) && p.player != Color::Empty ==> children_visits(
        m,
        p,
        legal_moves_spec(p, p.player).len(),
    ) == n
}

proof fn lemma_initial_table_wf(root: GameState)
    ensures
        table_wf(root, initial_table(root), 0),
{
    if root@.player != Color::Empty {
        lemma_children_unvisited(root, legal_moves_spec(root@, root@.player).len());
    }
}

/// An iteration keeps what a table of statistics holds, one iteration on.
proof fn lemma_iteration_keeps(
    m0: Map<u128, UCTData>,
    root: GameState,
    path: Seq<GameState>,
    result: End,
    m2: Map<u128, UCTData>,
    n: nat,
)
    requires
        table_wf(root, m0, n),
        n < ITERATION_LIMIT,
        iteration_spec(m0, root, path, result, m2),
    ensures
        table_wf(root, m2, n + 1),
{
    reveal(selection_walk);
    root.lemma_shaped();
    lemma_moves_left_bound(root@);
    let m1 = expand_spec(m0, path.last()@);
    assert(table_ok(m1, (MAX_PATH as nat) * n));
    lemma_backprop_table_ok(m1, result, path, (MAX_PATH as nat) * n);
    lemma_table_ok_weaken(m2, (MAX_PATH as nat) * n + path.len(), (MAX_PATH as nat) * (n + 1));
    lemma_backprop_visits(m1, result, path, key_of(root@));
    lemma_walk_root_once(m0, root, path, path.len());
    assert(path.take(path.len() as int) =~= path);
    if !is_leaf(root@) && root@.player != Color::Empty {
        assert(path.len() >= 2);
        assert(descend_ok(m0, path[0]@, path[1]@));
        let i0 = if fully_explored(m0, root@) {
            choose|j: int| #[trigger] first_best(m0, root@, j) && path[1]@ == child(root@, j)
        } else {
            choose|j: int|
                0 <= j < legal_moves_spec(root@, root@.player).len() && path[1]@ == #[trigger] child(
                    root@,
                    j,
                ) && !explored(m0, path[1]@)
        };
        lemma_table_ok_weaken(m1, (MAX_PATH as nat) * n, (PLAY_LIMIT - path.len()) as nat);
        lemma_iteration_children(m0, root, path, result, i0, legal_moves_spec(root@, root@.player).len());
    }
}

/// Whatever the random draws, a table that a search from `root` can hold
/// after `n` iterations satisfies `table_wf`: its statistics are sound
/// (`0 <= wins <= WIN_REWARD * num_plays`), the root has `n` visits, and,
/// when the root is not a leaf and a side is to move, the visits of the
/// root's children add up to `n`.
pub proof fn lemma_search_table_wf(root: GameState, n: nat, m: Map<u128, UCTData>)
    requires
        search_table(root, n, m),
        n <= ITERATION_LIMIT,
    ensures
        table_wf(root, m, n),
    decreases n,
{
    if n == 0 {
        lemma_initial_table_wf(root);
    } else {
        let (prev, path, r) = choose|prev: Map<u128, UCTData>, path: Seq<GameState>, r: End|
            #[trigger] iteration_spec(prev, root, path, r, m) && search_table(root, (n - 1) as nat, prev);
        lemma_search_table_wf(root, (n - 1) as nat, prev);
        lemma_iteration_keeps(prev, root, path, r, m, (n - 1) as nat);
    }
}

/// One move decision in progress: the root, a statistic for every expanded
/// position, keyed by the position's key, and the number of iterations run.
pub struct Search {
    root: GameState,
    stats: HashMap<u128, UCTData>,
    iterations: u64,
}

impl Search {
    pub closed spec fn root_spec(&self) -> GameState {
        self.root
    }

    pub closed spec fn table(&self) -> Map<u128, UCTData> {
        self.stats@
    }

    pub closed spec fn count(&self) -> nat {
        self.iterations as nat
    }

    /// Every statistic is sound and small enough to go on counting, and the
    /// root has a statistic.
    pub open spec fn wf(&self) -> bool {
        &&& table_wf(self.root_spec(), self.table(), self.count())
        &&& self.count() <= ITERATION_LIMIT
    }

    /// A search from `root` with no iteration run: only the root has a
    /// statistic, with no playouts.
    pub fn new(root: GameState) -> (r: Search)
        ensures
            r.wf(),
            r.root_spec() == root,
            r.count() == 0,
            r.table() == initial_table(root),
    {
        let mut stats: HashMap<u128, UCTData> = HashMap::new();
        stats.insert(root.key(), UCTData::new(0, 0));
        proof {
            lemma_initial_table_wf(root);
            assert(stats@ =~= initial_table(root));
        }
        Search { root, stats, iterations: 0 }
    }

    pub fn iterations(&self) -> (r: u64)
        ensures
            r == self.count(),
    {
        self.iterations
    }

    /// The statistic of `state`, if it was expanded.
    pub fn stats_of(&self, state: &GameState) -> (r: Option<UCTData>)
        ensures
            r == (if self.table().contains_key(key_of(state@)) {
                Some(self.table()[key_of(state@)])
            } else {
                None
            }),
    {
        match self.stats.get(&state.key()) {
            Some(d) => Some(*d),
            None => None,
        }
    }

    /// Runs one iteration: selection, expansion, a playout, and
    /// back-propagation. Returns false, and changes nothing, once the
    /// iteration limit is reached.
    pub fn step(&mut self, rng: &mut StdRng) -> (ran: bool)
        requires
            old(self).wf(),
        ensures
            final(self).wf(),
            final(self).root_spec() == old(self).root_spec(),
            ran == (old(self).count() < ITERATION_LIMIT),
            ran ==> final(self).count() == old(self).count() + 1,
            ran ==> exists|path: Seq<GameState>, r: End| #[trigger]
                iteration_spec(old(self).table(), old(self).root_spec(), path, r, final(self).table()),
            !ran ==> final(self).count() == old(self).count() && final(self).table() == old(self).table(),
    {
        if self.iterations >= ITERATION_LIMIT {
            return false;
        }
        let ghost m0 = self.stats@;
        let selected = tree_policy(&self.root, &self.stats, rng);
        let frontier = selected.expanded_node;
        let k = frontier.key();
        if !self.stats.contains_key(&k) {
            self.stats.insert(k, UCTData::new(0, 0));
        }
        let ghost m1 = self.stats@;
        assert(m1 == expand_spec(m0, frontier@));
        let result = run_simulation(frontier, self.root.side_to_move(), rng);
        proof {
            reveal(selection_walk);
            self.root.lemma_shaped();
            lemma_moves_left_bound(self.root@);
            assert(table_ok(m1, (MAX_PATH * self.iterations) as nat));
            lemma_table_ok_weaken(m1, (MAX_PATH * self.iterations) as nat, (PLAY_LIMIT - selected.path@.len()) as nat);
        }
        back_propogate(result, &mut self.stats, &selected.path);
        proof {
            assert(iteration_spec(m0, self.root, selected.path@, result, self.stats@));
            lemma_iteration_keeps(m0, self.root, selected.path@, result, self.stats@, self.iterations as nat);
        }
        self.iterations = self.iterations + 1;
        assert(iteration_spec(old(self).table(), old(self).root_spec(), selected.path@, result, self.table()));
        true
    }

    /// The move chosen from the statistics gathered so far: see
    /// `optimal_move_most_visisted`.
    pub fn best_move(&self) -> (r: Result<Move, SearchError>)
        ensures
            r is Err <==> is_leaf(self.root_spec()@),
            r is Err ==> r == Err::<Move, SearchError>(SearchError::NoLegalMoves),
            r matches Ok(mv) ==> exists|j: int|
                #[trigger] most_visited(self.table(), self.root_spec()@, j) && mv
                    == legal_moves_spec(self.root_spec()@, self.root_spec()@.player)[j],
    {
        let r = optimal_move_most_visisted(&self.root, &self.stats);
        proof {
            if let Ok(mv) = r {
                let j = choose|j: int| #[trigger] most_visited(self.stats@, self.root@, j) && mv
                    == legal_moves_spec(self.root@, self.root@.player)[j];
                assert(most_visited(self.table(), self.root_spec()@, j));
            }
        }
        r
    }
}

/// Chooses a move for the side to move at `root` after `iterations`
/// iterations of search: the move whose resulting position was visited
/// most. Fails, without searching, when the root is over or has no legal
/// move.
pub fn tree_search(root: GameState, iterations: u32, rng: &mut StdRng) -> (r: Result<Move, SearchError>)
    ensures
        r is Err <==> is_leaf(root@),
        r is Err ==> r == Err::<Move, SearchError>(SearchError::NoLegalMoves),
        r matches Ok(mv) ==> legal_moves_spec(root@, root@.player).contains(mv),
        r matches Ok(mv) ==> exists|m: Map<u128, UCTData>, j: int|
            search_table(root, iterations as nat, m) && m.contains_key(key_of(root@))
                && m[key_of(root@)].num_plays == iterations && #[trigger] most_visited(m, root@, j)
                && mv == legal_moves_spec(root@, root@.player)[j],
{
    let possible_moves = root.legal_moves(root.side_to_move());
    if possible_moves.len() < 1 || victory(root.win()) {
        return Err(SearchError::NoLegalMoves);
    }
    let mut search = Search::new(root);
    for i in 0..iterations
        invariant
            search.wf(),
            search.root_spec() == root,
            search.count() == i,
            search_table(root, i as nat, search.table()),
    {
        let ghost prev = search.table();
        let ran = search.step(rng);
        proof {
            assert(ran);
            let (path, res) = choose|path: Seq<GameState>, res: End| #[trigger]
                iteration_spec(prev, root, path, res, search.table());
            assert(iteration_spec(prev, root, path, res, search.table()));
            assert(search_table(root, (i + 1) as nat, search.table()));
        }
    }
    let r = search.best_move();
    proof {
        if let Ok(mv) = r {
            let j = choose|j: int| #[trigger] most_visited(search.table(), root@, j) && mv
                == legal_moves_spec(root@, root@.player)[j];
            assert(legal_moves_spec(root@, root@.player)[j] == mv);
            assert(search_table(root, iterations as nat, search.table()));
        }
    }
    r
}

pub fn get_result_value(result: End, player: Color) -> (r: u64)
    ensures
        r == reward_spec(result, player),
        r <= WIN_REWARD,
{
    match result {
        End::Tie => DRAW_REWARD,
        End::Victory(color) => {
            if color == player {
                WIN_REWARD
            } else {
                0
            }
        },
        _ => 0,
    }
}

/// The side that moved into `state`.
fn state_previous_player(state: &GameState) -> (r: Color)
    ensures
        r == mover(state@),
{
    match state.side_to_move() {
        Color::White => Color::Black,
        Color::Black => Color::White,
        _ => Color::White,
    }
}

/// Counts a playout with outcome `win_value` in the statistic of each
/// position of `path` that has one, crediting the reward to the side that
/// moved into that position. Positions without a statistic are skipped.
pub fn back_propogate(win_value: End, stats: &mut HashMap<u128, UCTData>, path: &Vec<GameState>)
    requires
        table_ok(old(stats)@, (PLAY_LIMIT - path@.len()) as nat),
        path@.len() <= PLAY_LIMIT,
    ensures
        final(stats)@ == backprop_spec(old(stats)@, win_value, path@),
        forall|b: nat|
            table_ok(old(stats)@, b) ==> #[trigger] table_ok(final(stats)@, b + path@.len()),
{
    let ghost start = stats@;
    let ghost base: nat = (PLAY_LIMIT - path@.len()) as nat;
    proof {
        assert(path@.take(0) =~= Seq::<GameState>::empty());
    }
    for i in 0..path.len()
        invariant
            stats@ == backprop_spec(start, win_value, path@.take(i as int)),
            start == old(stats)@,
            base == PLAY_LIMIT - path@.len(),
            forall|b: nat| b <= base && #[trigger] table_ok(start, b) ==> table_ok(stats@, b + i as nat),
            table_ok(start, base),
    {
        let node = path[i];
        let k = node.key();
        proof {
            assert(path@.take(i + 1).drop_last() =~= path@.take(i as int));
        }
        match stats.get(&k) {
            Some(stat) => {
                let r = get_result_value(win_value, state_previous_player(&node));
                let d = *stat;
                assert(table_ok(stats@, base + i as nat));
                let updated = UCTData::new(d.wins + r, d.num_plays + 1);
                let ghost before = stats@;
                stats.insert(k, updated);
                assert forall|b: nat| b <= base && #[trigger] table_ok(start, b) implies table_ok(
                    stats@,
                    b + (i + 1) as nat,
                ) by {
                    assert(table_ok(before, b + i as nat));
                    assert forall|k2: u128| #[trigger] stats@.contains_key(k2) implies entry_ok(stats@[k2])
                        && stats@[k2].num_plays <= b + (i + 1) as nat by {
                        if k2 != k {
                            assert(before.contains_key(k2));
                        }
                    }
                }
            },
            None => {
                assert forall|b: nat| b <= base && #[trigger] table_ok(start, b) implies table_ok(
                    stats@,
                    b + (i + 1) as nat,
                ) by {
                    lemma_table_ok_weaken(stats@, b + i as nat, b + (i + 1) as nat);
                }
            },
        }
    }
    proof {
        assert(path@.take(path@.len() as int) =~= path@);
        assert forall|b: nat| #[trigger] table_ok(start, b) implies table_ok(stats@, b + path@.len()) by {
            if b > base {
                assert(table_ok(stats@, base + path@.len() as nat));
                lemma_table_ok_weaken(stats@, base + path@.len() as nat, b + path@.len() as nat);
            }
        }
    }
}

} // verus!
