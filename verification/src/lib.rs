//! Exact-fit board layout for a rectangular floor.
//!
//! Given a bounded inventory of board types, the row enumerator finds every
//! distinct way to fill one row to exactly the row width, and the floor
//! solver searches those row patterns for a first feasible covering of the
//! whole floor that never overdraws any bin.

pub mod model;
pub mod rowstate;
pub mod state;

pub use model::starting_stock;
pub use model::starting_used;
pub use model::Stock;
pub use rowstate::RowSoln;
pub use rowstate::RowState;
pub use state::State;
