//! Data model of the legacy package index.

pub mod index;
