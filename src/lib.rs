//! A schema-driven admin and form engine: typed entities built from nested
//! properties, their encoding as flat bracket-named form fields and back, and
//! the request flows that run lifecycle hooks before the store is touched.
pub mod name_path;
pub mod bindings;
pub mod property;
pub mod schema;
pub mod form;
pub mod entity;
pub mod submission;
pub mod dispatch;
pub mod upload;
pub mod context;
pub mod render;
