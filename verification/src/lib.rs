//! A minimal document template engine.
//!
//! Template text is parsed into a sequence of fragments: literal runs and
//! `{{ tag }}` placeholders. A parsed template is then saturated against a
//! collection of key/value pairs to produce the final text.

pub mod bundle;
pub mod config;
pub mod document;
pub mod fhir_date;
pub mod parser;
pub mod patient;
