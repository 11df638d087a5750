//! Laws that hold across the functions of the library.
pub mod calendar;
pub mod collect;
pub mod configuration;
pub mod coord;
pub mod declared;
pub mod effective;
pub mod heritage;
pub mod interpolation;
pub mod layout;
pub mod lines;
pub mod listing;
pub mod lists;
pub mod pom;
pub mod qualifiers;
pub mod ranges;
pub mod report;
pub mod repository;
pub mod resolver;
pub mod sending;
pub mod tags;
pub mod timestamp;
pub mod transfer;
pub mod tree;
pub mod version;
pub mod xml;
pub mod wanted;
pub mod words;
