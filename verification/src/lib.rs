//! Replay a recorded `OpenVINO` GPU inference over plain `OpenCL`: all that is
//! decided on the way.
//!
//! A recording is a directory with the text of the recorded inference
//! (`replay.txt`), its constants (`weights.bin`), the device binaries
//! (`prog_<n>.bin`), and the inputs and outputs of one inference
//! (`golden.bin`). [`plan`] reads the text, and [`grammar`] states what its
//! lines mean, word by word. [`layout`] gives every allocation
//! its place, and [`script`] says what has to be done on the device to make
//! the recording ready. [`replay`] says what a run is, where inputs go and
//! outputs lie, and how outputs are held against the recorded ones. [`load`]
//! joins these to the way a recording comes in: it must be of this device, and
//! under another driver it must reproduce its outputs bit for bit.
//!
//! Nothing here calls `OpenCL` or reads a file: the library hands out commands
//! and orders, and takes back what they gave.

pub mod cl;
pub mod error;
pub mod grammar;
pub mod layout;
pub mod load;
pub mod number;
pub mod plan;
pub mod replay;
pub mod runner;
pub mod script;
pub mod text;
pub mod trace;

pub use cl::ClError;
pub use error::Error;
pub use plan::Plan;
pub use replay::Replay;
