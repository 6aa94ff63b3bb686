//! A solver for the color-sort tube puzzle.
//!
//! Colored units are stacked in tubes of a fixed capacity. A pour moves the
//! whole run of equal units on top of one tube onto another tube. The solver
//! searches breadth-first for a shortest sequence of pours after which every
//! tube is empty or filled with a single color.
//!
//! * [`model`] is the mathematical description of tubes, pours and paths.
//! * [`order`] is the order in which the search meets paths.
//! * [`puzzle`] holds the executable types and the search itself.
//! * [`laws`] states what holds of pours and of the search's answer.
//! * [`recognition`] finds the tubes on a screenshot of the game.
//! * [`screenshot`] is the picture that they are found on.
pub mod laws;
pub mod model;
pub mod order;
pub mod puzzle;
pub mod recognition;
pub mod screenshot;
mod search;
