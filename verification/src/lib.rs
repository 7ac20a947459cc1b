//! Language settings, dashboard catalog and local request handling for the
//! `ray` desktop GUI.
pub mod catalog;
pub mod command;
pub mod desktop;
pub mod http;
pub mod json;
pub mod jsontext;
pub mod merge;
pub mod order;
pub mod scan;
pub mod settings;
pub mod text;
