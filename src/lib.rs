//! A codec between schema-bound binary messages and JSON, driven by the
//! message schema and its JSON annotations, and a generator of TypeScript
//! declarations for the JSON it reads and writes.
//!
//! Schemas, values and JSON are plain values here: `schema::SchemaSet`
//! holds every struct and enum a traversal may reach, `value::Value` a value
//! bound to a schema type, and `json::Json` a JSON tree.

pub mod annots;
pub mod data;
pub mod deserialize;
pub mod error;
pub mod json;
pub mod schema;
pub mod serialize;
pub mod text;
pub mod typescript;
pub mod value;
