pub mod app;
pub mod archive;
pub mod compose;
pub mod config;
pub mod detect;
pub mod index;
pub mod install;
pub mod installed;
pub mod keyset;
pub mod lines;
pub mod paths;
pub mod plan;
pub mod roots;
pub mod rows;
pub mod sort;
pub mod text;
pub mod thunderstore;
pub mod update;
pub mod view;
