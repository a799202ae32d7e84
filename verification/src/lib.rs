//! Grid-world Markov decision processes in exact fixed-point arithmetic:
//! a stochastic transition model, synchronous value iteration, greedy policy
//! extraction and tabular Q-learning, each with a machine-checked contract.

pub mod bellman;
pub mod environment;
pub mod error;
pub mod fixed;
pub mod grid;
pub mod mdp;
pub mod policy;
pub mod random;
pub mod robot;
pub mod series;
pub mod simulation;
pub mod status;
pub mod transition;
pub mod world;
