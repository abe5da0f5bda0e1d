//! Finds exports of a Next.js project that no file imports.
//!
//! The library holds the logic: a lexer for the import/export subset of
//! ECMAScript modules, a parser for import and export statements, the
//! dependency graph and the dead-export analysis. Reading directories and
//! files, and resolving paths on disk, are left to the caller.
pub mod errors;
pub mod text;
pub mod lexers;
pub mod parser;
pub mod graph;
pub mod file_scanner;
