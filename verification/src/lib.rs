//! Parsing and canonical re-serialization of the textual grammars used by a
//! source-based package manager's metadata: dependency atoms, version
//! strings, USE-flag dependencies, the recursive dependency-expression
//! language, and the line-oriented installed-file-database contents format.
//!
//! Every parser is verified against a spec-level mirror of its grammar that
//! fixes when it succeeds and where it ends. The atom, version, slot, and
//! USE-dependency parsers further guarantee that the text they consume is
//! exactly the canonical text of the value they return; the
//! dependency-expression parsers pin the tree's shape, every leaf tied to
//! its consumed text; the contents parser returns exactly the records its
//! greedy repetition reads. In the other direction, the canonical form is
//! proved unambiguous — two well-formed atoms, versions, slots, or USE
//! dependencies with the same canonical text have the same content — and
//! every canonical version text is proved acceptable to the version
//! grammar, so re-parsing a rendered value can only give the value back.

pub mod atom;
pub mod depend;
pub mod parser_utils;
pub mod useflag;
pub mod vdb;
