//! A chain-reaction board game: boards of cells that overflow into their
//! neighbours, the chain reaction that a move sets off, and four strategies
//! of rising strength, the strongest an incremental search over the moves to
//! come that is cut into frames.
//!
//! Every function of this library is verified against a contract. What is
//! taken on trust is named in [`chance`] (random draws) and [`marks`] (a set
//! of cells).

use vstd::prelude::*;

pub mod layout;
pub mod grid;
pub mod rows;
pub mod cascade;
pub mod chance;
pub mod marks;
pub mod scan;
pub mod order;
pub mod ai;
pub mod version;
pub mod proto;
