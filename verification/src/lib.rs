//! The decisions behind a deployment's durability and orchestration
//! programs: backup, restore, retention, rehearsal, bundling, recovery,
//! scheduling, the service table and the walkthrough seed.

pub mod text;
pub mod decimal;
pub mod order;
pub mod calendar;
pub mod digest;
pub mod json;
pub mod manifest;
pub mod rewrite;
pub mod archive;
pub mod listing;
pub mod path;
pub mod plan;
pub mod http;
pub mod backup;
pub mod verify;
pub mod restore;
pub mod schedule;
pub mod bundle;
pub mod drill;
pub mod recover;
pub mod rehearse;
pub mod environment;
pub mod runner;
pub mod services;
pub mod stack;
pub mod seed;
pub mod walkthrough;
pub mod cli;
pub mod effects;
