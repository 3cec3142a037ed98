use vstd::prelude::*;

pub mod text;
pub mod status;
pub mod diff;
pub mod git;
pub mod graph;
pub mod branch;
pub mod commit;
pub mod remote;
pub mod ignore;
pub mod ids;
pub mod cache;
pub mod inflight;
pub mod problems;
pub mod bulk;
pub mod discovery;
pub mod roots;
pub mod root_state;
pub mod watch;
pub mod menu;
pub mod shell;
pub mod schedule;
