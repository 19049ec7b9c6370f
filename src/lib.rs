//! Game-tree search: a Connect-4 rule engine, a bit-packed state key,
//! minimax / negamax / alpha-beta / MTD(f) over an explicit tree, and the
//! decision steps of a Monte Carlo tree search.
pub mod codec;
pub mod connect4;
pub mod mcts;
pub mod search;
