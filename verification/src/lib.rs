//! A verified core for a worktime-punch command-line client: grouping of
//! recurring task descriptions, construction of letter/number selection
//! menus, and the state machine that resolves one user selection.

pub mod grouping;
pub mod menu;
pub mod punch;
pub mod session;
pub mod text;
