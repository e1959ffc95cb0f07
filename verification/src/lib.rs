//! A simulated trading terminal: instruments whose prices move at random, positions and orders,
//! the keys that place them, and what the screen shows of it all.
//!
//! - `rounding` and `double`: binary floating-point arithmetic on integers,
//! - `exactness`: which of its results are exact, and how they are ordered,
//! - `decimal`: numbers as text,
//! - `market`: instruments, positions, trades and the order ticket,
//! - `terminal`: the state, and what keys and time do to it,
//! - `session`: what to do next, from what happened last,
//! - `panels` and `screen`: what is shown, and where,
//! - `laws`: what holds in every state,
//! - `accounting` and `totals`: how fills, trades, positions and totals agree,
//! - `accuracy`, `amounts` and `conduct`: how close prices and profits are to the exact ones,
//! - `transitions`: what each step changes, and what it leaves as it was,
//! - `reading` and `display`: what can be read off numbers as text, and off the panels.
pub mod accounting;
pub mod accuracy;
pub mod amounts;
pub mod conduct;
pub mod decimal;
pub mod display;
pub mod double;
pub mod exactness;
pub mod laws;
pub mod market;
pub mod panels;
pub mod reading;
pub mod rounding;
pub mod screen;
pub mod session;
pub mod terminal;
pub mod totals;
pub mod transitions;
