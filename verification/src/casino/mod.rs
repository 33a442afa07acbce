//! The table engine and the drivers that run it.
pub mod action;
pub mod cashier;
pub mod chips;
pub mod dealer;
pub mod equity;
pub mod game;
pub mod hand_history;
pub mod manager;
pub mod principal;
pub mod session;
pub mod state;
pub mod state_order;
pub mod table;
