//! Verified core of a parser toolkit for the Dolfin ontology language.

pub mod annotation;
pub mod ast;
pub mod comment;
pub mod error;
pub mod lexer;
pub mod package;
pub mod parser;
pub mod text;

pub use error::{Location, ParseError};
pub use package::{OntologyFile as LoadedOntologyFile, Package, PackageError};
