pub mod digest;
pub mod document;
pub mod files;
pub mod group;
pub mod library;
pub mod metadata;
pub mod order;
pub mod report;
