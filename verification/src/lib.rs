//! What did a mail go through? This library reads the log of a mail
//! system, gathers the lines of each transaction, links the transactions
//! that handed a message on to one another, and shows the threads of a
//! message as a tree of framed boxes.
//!
//! The lines are classified in [`line`], gathered into a [`state::State`],
//! whose meaning is the model of [`model`], and the threads of a message are
//! found as [`graph`] describes and drawn as [`render`] describes.

pub mod display;
pub mod graph;
pub mod line;
pub mod model;
pub mod order;
pub mod render;
pub mod resolve;
pub mod scan;
pub mod state;
pub mod table;
