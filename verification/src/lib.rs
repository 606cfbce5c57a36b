//! A verified decision engine for the trick-taking card game Hearts.
//!
//! The crate models cards and their textual codecs, the rules engine
//! (legal plays, trick resolution, scoring with moon-shooting variants),
//! the per-round state machine, a constrained sampler for hidden hands,
//! heuristic play/pass policies, and a Monte Carlo card chooser that
//! scores candidate plays by expected match equity.

pub mod card;
pub mod hearts;
pub mod hearts_ai;
pub mod randsrc;
pub mod sampler;
