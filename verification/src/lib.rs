pub mod command;
pub mod config;
pub mod dates;
pub mod error;
pub mod fs;
pub mod ignore;
pub mod io;
pub mod pathset;
pub mod setting;
pub mod strutil;
pub mod tree;
