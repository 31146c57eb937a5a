//! Logic of a terminal checkpoint explorer.
pub mod cli;
pub mod codec;
pub mod commands;
pub mod comparison;
pub mod config;
pub mod convert;
pub mod dataview;
pub mod diff;
pub mod diff_laws;
pub mod explorer;
pub mod explorer_laws;
pub mod files;
pub mod filetree;
pub mod filter;
pub mod hdf5;
pub mod header;
pub mod health;
pub mod img;
pub mod inputs;
pub mod json;
pub mod keys;
pub mod leaves;
pub mod load;
pub mod namemap;
pub mod names;
pub mod open;
pub mod order;
pub mod paths;
pub mod plain;
pub mod progress;
pub mod prompts;
pub mod remote;
pub mod sample;
pub mod scan;
pub mod schema;
pub mod screens;
pub mod session;
pub mod stats;
pub mod stats_laws;
pub mod text;
pub mod tree;
pub mod tree_laws;
pub mod tui;
pub mod units;
