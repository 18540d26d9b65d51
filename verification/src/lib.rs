//! Reconciliation of codepoint coverage declared by multiple ordered sources.
//!
//! Sources (font files, in the hosting tool) each declare a finite set of
//! codepoints. This library builds two artifacts from those declarations:
//! a first-claim ownership map from codepoint to source, and a sorted,
//! non-overlapping set of owned codepoint intervals, with size-based
//! resolution of overlap disputes and same-owner range compaction.

pub mod compact;
pub mod ownership;
pub mod paths;
pub mod reconcile;
pub mod report;
pub mod runs;
