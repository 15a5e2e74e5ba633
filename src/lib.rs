//! A Monte Carlo tree search engine with UCB1 selection, playing a
//! seven-column, six-row connection game.

pub mod game_state;
pub mod monte_carlo;
pub mod ucb;
