//! Extraction of a typed schema (modules, methods, properties and the value
//! shapes they expose) from the blocks of an HTML API-reference page.
pub mod text;
pub mod shape;
pub mod model;
pub mod classify;
pub mod html;
