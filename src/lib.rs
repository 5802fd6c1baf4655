//! A filtered view of a package store: which store paths to mask, and how
//! the masked view is assembled.

pub mod closure;
pub mod error;
pub mod names;
pub mod reconcile;
pub mod session;
pub mod view;
