//! Planning and logging logic for a grid "worker-wrapper" solver: problem parsing,
//! the wrapped-map positions with undoable moves, the chain-puzzle generator and
//! the binary visual-log encoders.
pub mod grid;
pub mod cells;
pub mod chain;
pub mod carve;
pub mod desc;
pub mod greedy;
pub mod layout;
pub mod log_write;
pub mod multi;
pub mod route;
pub mod single;
pub mod assign;
pub mod trlog;
pub mod union;
pub mod vilog;
