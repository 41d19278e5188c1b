//! A categorized observer registry with weak-handle subscriptions.
//!
//! Subscribers attach callback logic to named event categories; a dispatcher
//! fires event values to all live subscribers of the matching category and
//! prunes subscriptions whose owning subscriber has already released its
//! callback body. Liveness is tracked with slot handles into a body store,
//! and registry entries carry unique identity tokens, so that handles held
//! by callers can always be resolved safely after an entry has been removed.

pub mod body;
pub mod event;
pub mod registry;
