//! A play read from line-oriented scripts and recited in order.
//!
//! A play is a sequence of scene fragments, a fragment a title and a cast, a
//! player a name and numbered lines. Nothing here opens a file or a socket: what
//! was read comes in as lines of text, what is to be printed goes out as a
//! [`transcript::Transcript`], and what a file server has to decide is decided
//! on the one line that a connection sent.
//!
//! - [`text`]: whitespace, words and numbers
//! - [`transcript`]: what is printed, and whether warnings are wanted
//! - [`declarations`]: exit codes and failures
//! - [`script_gen`]: sources, and the lines read from them
//! - [`player`], [`recital`], [`numbering`], [`scene_fragment`], [`play`]: the
//!   play itself
//! - [`server`], [`return_wrapper`]: the file server and the end of a run
//! - [`theorems`]: what holds of all of it
use vstd::prelude::*;

pub mod declarations;
pub mod numbering;
pub mod play;
pub mod player;
pub mod recital;
pub mod return_wrapper;
pub mod scene_fragment;
pub mod script_gen;
pub mod server;
pub mod text;
pub mod theorems;
pub mod transcript;

verus! {

} // verus!
