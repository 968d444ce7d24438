//! A companion to the editor for `composer.json`: which declared
//! dependencies have a newer release that their constraint allows, on which
//! line each stands, and what to show or do for the dependency on a line.
//!
//! The library decides; it reads no file and asks no registry. Texts are
//! handed to it, and what it hands back says what to show, fetch or run.

pub mod analysis;
pub mod composer;
pub mod constraint;
pub mod json;
pub mod lines;
pub mod order;
pub mod packagist;
pub mod text;
pub mod version;
