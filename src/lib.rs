//! Triage engine for a feed of GitHub notifications and personal pull requests:
//! a compact command language, the alias table it reads, the per-kind action
//! filter, the optimistic reconciler with its override ledger, and the
//! aggregation of executed actions.

pub mod commands;
pub mod exec;
pub mod github;
pub mod ignore;
pub mod layout;
pub mod state;
pub mod text;
pub mod types;
pub mod ui;
