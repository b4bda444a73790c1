//! A verified engine for finite, discrete-state Markov decision processes.
//!
//! A client declares a state type, a set of actions (each with gating
//! preconditions and probabilistic outcome branches) and an initial state.
//! The engine explores every reachable state, freezes the transition graph,
//! runs value iteration to convergence, and extracts the expected-value
//! maximizing action for every state.
//!
//! All probabilities, rewards and state values are fixed-point numbers:
//! an `i64` counting units of `1 / SCALE`.

pub mod bakery;
pub mod chain;
pub mod fixed;
pub mod grid;
pub mod mdp;
pub mod model;
pub mod policy;
pub mod solver;
pub mod toggle;

pub use fixed::REWARD_MAX;
pub use fixed::SCALE;
pub use fixed::VALUE_MAX;
