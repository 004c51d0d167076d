//! comfysort engine: the verified core of a preview-first media sorter.

pub mod text;
pub mod rank;
pub mod paths;
pub mod search;
pub mod domain;
pub mod ignore;
pub mod operations;
pub mod persistence;
pub mod destinations;
pub mod media;
pub mod session;
pub mod settings;
