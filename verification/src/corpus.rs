//! Formatters built on the document model: a Go-like source formatter, a
//! JSON formatter and a SQL formatter.
pub mod ast;
pub mod json;
pub mod quote;
pub mod sql;
