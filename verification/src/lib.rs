//! Core of a polite recursive web crawler: a single-host scheduling engine
//! that interns every URL it sees, paces request dispatch, classifies fetched
//! resources as HTML or other, extracts outbound links, and keeps an
//! append-only record of discovered URLs, scrapes, failures and redirects.
//!
//! The crate is the decision-making core alone: HTTP transfers, HTML body
//! reads, sleeps and file writes are performed by the embedding program, which
//! drives the [`schedule::Scheduler`] state machine with plain values.
pub mod config;
pub mod file;
pub mod middle;
pub mod state;
pub mod pattern;
pub mod ring;
pub mod schedule;
pub mod text;
pub mod urls;
