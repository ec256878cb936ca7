//! Rollback netplay over a *link* of two DSes: both consoles run locally in one
//! process and talk to each other over emulated local-wireless airwaves, and
//! the pair is the unit that snapshots and restores.
//!
//! The two consoles run concurrently, and what keeps the pair deterministic is
//! that frame delivery depends on emulated wifi time alone (see [`air`]). No
//! decision consults the wall clock or thread timing. A link in which every
//! race comes together is a function of its inputs however its threads
//! interleave; [`determinism`] says what a race is, and proves it. Races come
//! together where consoles keep their word: they send nothing that a receive of
//! the peer's has been told not to expect, and come on the air under such a
//! receive only if they get past it before they send anything there.
//!
//! A [`Snapshot`] holds both consoles *and* the frames still in flight on the
//! air; restoring it resumes the session exactly, which is what a rollback
//! netcode needs when a prediction turns out wrong.
//!
//! This crate holds the rules. The emulator, its threads and the rollback
//! engine are driven from outside: they lock an [`air::Air`], call it, and wait
//! where it says so.

pub mod air;
pub mod bytes;
pub mod determinism;
pub mod format;
pub mod frame;
pub mod host;
pub mod input;
pub mod link;
pub mod router;
pub mod schedule;
pub mod session;
pub mod snapshot;
pub mod stock;

pub use frame::Frame;
pub use input::Input;
pub use snapshot::Snapshot;
