//! A read-only viewer over a version-control repository: it infers a baseline
//! ("origin") branch when none is given, computes the commits reachable from
//! HEAD but not from that baseline, and prepares the lines a terminal client
//! prints (repository state, current branch, short commit ids and message
//! headlines).
//!
//! The repository itself is held as a plain in-memory model ([`repo::Repo`]):
//! commits with parent links, commit times and raw messages, named references,
//! and the handful of facts the baseline heuristic reads. An unverified shell
//! fills that model from the on-disk repository and prints what these modules
//! return.

pub mod present;
pub mod repo;
pub mod resolve;
pub mod walk;
