//! Compiler context: what the compilation is about, and the problems found so far.

use vstd::prelude::*;

use crate::ast::Identifier;
use crate::error::ErrorReporter;
use crate::text::string_of;

verus! {

/// What the compiler is asked to produce.
#[derive(Debug, Clone, Copy, PartialEq, Eq, Structural)]
pub enum Emit {
    Ast,
    LlvmIr,
    Binary,
}

impl Default for Emit {
    fn default() -> (r: Emit)
        ensures
            r == Emit::Binary,
    {
        Emit::Binary
    }
}

/// Facts about the crate being compiled.
#[derive(Debug, Clone, PartialEq, Eq)]
pub struct Metadata {
    pub crate_name: Identifier,
    pub emit_type: Emit,
}

/// Compiler context.
#[derive(Debug)]
pub struct Context {
    pub metadata: Metadata,
    pub error_reporter: ErrorReporter,
}

impl Context {
    /// A context for compiling the crate that `metadata` describes, with no problem reported.
    pub fn new(metadata: Metadata) -> (r: Context)
        ensures
            r.metadata == metadata,
            r.error_reporter.spec_errors().len() == 0,
            r.error_reporter.spec_warnings().len() == 0,
    {
        Context { metadata, error_reporter: ErrorReporter::new() }
    }

    /// A context for tests: crate `_TEST`, emitting the default output.
    pub fn new_test() -> (r: Context)
        ensures
            r.metadata.crate_name@ == seq!['_', 'T', 'E', 'S', 'T'],
            r.metadata.emit_type == Emit::Binary,
            r.error_reporter.spec_errors().len() == 0,
            r.error_reporter.spec_warnings().len() == 0,
    {
        Context {
            metadata: Metadata {
                crate_name: Identifier(string_of(&['_', 'T', 'E', 'S', 'T'])),
                emit_type: Emit::default(),
            },
            error_reporter: ErrorReporter::new(),
        }
    }
}

} // verus!
