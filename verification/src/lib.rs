use vstd::prelude::*;

pub mod app;
pub mod bundle;
pub mod calendar;
pub mod cli;
pub mod dataview;
pub mod edits;
pub mod json;
pub mod keys;
pub mod launch;
pub mod laws;
pub mod model;
pub mod modlist;
pub mod order;
pub mod overlay;
pub mod paths;
pub mod profiles;
pub mod screen;
pub mod session;
pub mod status;
pub mod steam;
pub mod store;
pub mod strmap;
pub mod text;
pub mod ui;
pub mod versions;
