//! A poker table engine: chips, betting state, seats, side pots and the
//! drivers that run hands, with every rule stated as a contract.
pub mod card;
pub mod casino;
pub mod error;
pub mod text;
