//! The decisions of the `docli` command line: a client that keeps read-only mirrors of document
//! workspaces inside a project, and wires the agents that work there to the same documents.
//!
//! Nothing here touches the disk, the network or the terminal. Every function takes what was read
//! as plain values and returns what is to be written, asked or said. Each contract states that
//! result exactly.
//!
//! - [`state`], [`apply`], [`plan`], [`page`], [`course`]: the mirror. What is remembered of it, how a
//!   delivery is classified, how a page is planned, how it is carried out step by step and what it
//!   comes to as a whole.
//! - [`doctor`]: the account of a mirror against the server, the disk and the state.
//! - [`config`], [`localpath`], [`init_cmd`]: the project file, its rules and its setup.
//! - [`agents`], [`hooks`], [`spared`], [`instructions`], [`guard`]: what is written for agents, what
//!   of theirs it leaves alone, and the ruling on their writes.
//! - [`creds`], [`login`], [`logout`], [`http`]: signing in and out, and talking to the server.
//! - [`graph`], [`graph_cmd`], [`list_cmd`]: questions over the held graph, and the workspaces.
//! - [`json`], [`jsontext`], [`walks`], [`toml_text`], [`text`], [`labels`], [`digest`], [`ids`],
//!   [`report`]: values and texts that the others share, and the calls into other crates.
//! - [`outcome`], [`upkeep`], [`clean`], [`told`], [`views`], [`setup`], [`wiring`]: laws that span the
//!   functions above, stated over what goes in and what comes out.

pub mod text;
pub mod json;
pub mod jsontext;
pub mod walks;
pub mod digest;
pub mod labels;
pub mod agents;
pub mod toml_text;
pub mod report;
pub mod ids;
pub mod config;
pub mod localpath;
pub mod state;
pub mod apply;
pub mod plan;
pub mod outcome;
pub mod page;
pub mod course;
pub mod upkeep;
pub mod doctor;
pub mod clean;
pub mod told;
pub mod hooks;
pub mod spared;
pub mod creds;
pub mod init_cmd;
pub mod setup;
pub mod wiring;
pub mod instructions;
pub mod guard;
pub mod graph;
pub mod graph_cmd;
pub mod http;
pub mod login;
pub mod logout;
pub mod list_cmd;
pub mod views;
