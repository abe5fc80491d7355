//! Git-native project templating: `@VAR@` placeholder rendering, template
//! manifests, cached artifact identifiers and the command-line front end's
//! decision logic, with their contracts.

pub mod text;
pub mod lines;
pub mod valid;
pub mod vars;
pub mod replace;
pub mod scan;
pub mod cli;
pub mod config;
pub mod resolve;
pub mod order;
pub mod prompt;
pub mod error;
pub mod manifest;
pub mod ignore_rules;
pub mod pipeline;
pub mod lazyget;
pub mod commands;

pub use error::{InheritError, KissReplaceError, LazyGetError};
pub use lazyget::make_id;
pub use manifest::Manifest;
pub use pipeline::{load_template, ProcessOptions, ProcessResult, TemplateContext};
pub use replace::KissReplace;
pub use vars::{NameSet, Variables};
