//! Deterministic simulation core of a toroidal-grid snake game.
//!
//! The library owns the grid, the snake's shape and growth bookkeeping,
//! apple placement, and the per-tick transition that turns "snake facing
//! direction D" into a new board state and a classified event. Rendering,
//! audio, input mapping and the tick scheduler live outside; the uniform
//! random source is injected by the caller as a plain pick value.

pub mod game_logic;
