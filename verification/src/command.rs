pub mod burn;
pub mod config;
pub mod destroy;
pub mod end;
pub mod ignore;
pub mod init;
pub mod patrol;
pub mod set;
pub mod start;
pub mod sweep;
pub mod version;
