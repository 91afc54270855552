//! A two-party chat channel: an ephemeral Diffie–Hellman key agreement over a
//! fixed 64-bit modulus, a linear-congruential keystream seeded from the shared
//! secret, an XOR stream cipher over that keystream, and length-prefixed frames
//! on the wire. Sockets, threads and the console stay with the caller, which
//! hands the library plain values and acts on what comes back.
//!
//! Beside the chat stand the computing parts of three small companion tools:
//! the grid, map format and searches of a path finder (`hexpath`,
//! `pathfind`), the parsers of a hex file tool (`hextool`) and the number
//! formatting of a word counter (`wordfreq`).

pub mod frame;
pub mod hexpath;
pub mod hextool;
pub mod key_exchange;
pub mod keystream;
pub mod modexp;
pub mod pathfind;
pub mod session;
pub mod text;
pub mod wordfreq;
