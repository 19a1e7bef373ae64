//! A model-metadata and schema-migration engine.
//!
//! One declarative entity definition is the single source of truth from
//! which three artifacts are derived: ordered, reversible storage-schema
//! migrations, input-validation rules, and client-facing type
//! declarations. The migration ledger and executor apply pending
//! migrations to a storage schema exactly once, in ascending version
//! order, atomically.

pub mod export;
pub mod fields;
pub mod engine;
pub mod migration;
pub mod models;
pub mod validation;
