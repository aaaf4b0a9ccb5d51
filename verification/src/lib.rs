pub mod config;
pub mod paths;
pub mod present;
pub mod scan;
