//! Maven artifact resolution: coordinates, versions, POMs, settings, repositories and the
//! dependency resolver, with every rule stated as a contract and proved.
pub mod checksum;
pub mod cli;
pub mod collect;
pub mod coord;
pub mod downloader;
pub mod effective;
pub mod error;
pub mod known;
pub mod laws;
pub mod metadata;
pub mod pom;
pub mod properties;
pub mod repository;
pub mod resolver;
pub mod settings;
pub mod text;
pub mod timestamp;
pub mod tree;
pub mod uploader;
pub mod version;
pub mod xml;
