pub mod app;
pub mod bytes;
pub mod hotspot;
pub mod lists;
pub mod pages;
pub mod platform;
pub mod report;
pub mod search;
pub mod text;
