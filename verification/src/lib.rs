//! The decision core of a terminal sidebar that lists coding agents.

pub mod app;
pub mod bar;
pub mod chrome;
pub mod client;
pub mod collections;
pub mod configwatch;
pub mod context;
pub mod daemon;
pub mod github;
pub mod gitloop;
pub mod gitworker;
pub mod inactivity;
pub mod layout_tree;
pub mod lists;
pub mod model;
pub mod paths;
pub mod pointer;
pub mod publish;
pub mod resize;
pub mod row;
pub mod rows;
pub mod runtime;
pub mod schedule;
pub mod selection;
pub mod settings;
pub mod snapshot;
pub mod style;
pub mod templates;
pub mod text;
pub mod tick;
pub mod ui;
pub mod updates;
pub mod viewport;
pub mod watch;
