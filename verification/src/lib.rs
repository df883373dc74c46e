//! Streaming triage of binary dumps.
//!
//! A byte source is cut into fixed-size windows.  Each window is rendered as a
//! hexadecimal listing, searched for known file-format signatures and searched for
//! runs of printable text.  Signatures and runs that straddle a window boundary are
//! found all the same: the detectors hand a small carry state from one window to
//! the next.
pub mod error;
pub mod text;
pub mod finding;
pub mod window;
pub mod hex;
pub mod printable;
pub mod signature;
pub mod driver;
pub mod laws;
