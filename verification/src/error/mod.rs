//! Error reporting.

pub mod expected_token;
pub mod library;

use vstd::prelude::*;

use crate::input_stream::{Location, SourceId};

pub use self::expected_token::ExpectedToken;

verus! {

/// How severe a reported problem is.
#[derive(Debug, Clone, Copy, PartialEq, Eq, PartialOrd, Ord, Structural)]
pub enum Severity {
    /// User attention requested.
    Warn,
    /// Compilation failed.
    Deny,
}

/// A reported problem: its message and where it is in the source.
#[derive(Debug)]
pub struct Error {
    pub message: String,
    pub source: Option<SourceId>,
    pub start: Location,
    pub end: Location,
}

/// Collects the problems found during compilation.
#[derive(Debug)]
pub struct ErrorReporter {
    /// Valid code that looks suspicious to the compiler.
    warnings: Vec<Error>,
    /// Invalid code that doesn't allow compilation to proceed.
    errors: Vec<Error>,
}

impl ErrorReporter {
    /// Problems that deny compilation, in the order they were reported.
    pub closed spec fn spec_errors(&self) -> Seq<Error> {
        self.errors@
    }

    /// Warnings, in the order they were reported.
    pub closed spec fn spec_warnings(&self) -> Seq<Error> {
        self.warnings@
    }

    /// An empty reporter.
    pub fn new() -> (r: ErrorReporter)
        ensures
            r.spec_errors().len() == 0,
            r.spec_warnings().len() == 0,
    {
        ErrorReporter { warnings: Vec::new(), errors: Vec::new() }
    }

    /// Starts building a warning.
    pub fn warn(&self) -> (r: ErrorBuilder)
        ensures
            r.spec_severity() == Severity::Warn,
            r.spec_message() is None,
            r.spec_start() is None,
            r.spec_end() is None,
            r.spec_source() is None,
    {
        ErrorBuilder::new(Severity::Warn)
    }

    /// Starts building an error.
    pub fn error(&self) -> (r: ErrorBuilder)
        ensures
            r.spec_severity() == Severity::Deny,
            r.spec_message() is None,
            r.spec_start() is None,
            r.spec_end() is None,
            r.spec_source() is None,
    {
        ErrorBuilder::new(Severity::Deny)
    }

    /// Stores a problem of the given severity.
    pub fn report(&mut self, error: Error, severity: Severity)
        ensures
            severity == Severity::Deny ==> final(self).spec_errors() == old(self).spec_errors().push(
                error,
            ) && final(self).spec_warnings() == old(self).spec_warnings(),
            severity == Severity::Warn ==> final(self).spec_warnings() == old(
                self,
            ).spec_warnings().push(error) && final(self).spec_errors() == old(self).spec_errors(),
    {
        match severity {
            Severity::Warn => self.warnings.push(error),
            Severity::Deny => self.errors.push(error),
        }
    }

    /// Problems that deny compilation.
    pub fn errors(&self) -> (r: &Vec<Error>)
        ensures
            r@ == self.spec_errors(),
    {
        &self.errors
    }

    /// Warnings.
    pub fn warnings(&self) -> (r: &Vec<Error>)
        ensures
            r@ == self.spec_warnings(),
    {
        &self.warnings
    }

    /// Whether any problem denies compilation.
    pub fn has_errors(&self) -> (r: bool)
        ensures
            r == (self.spec_errors().len() > 0),
    {
        self.errors.len() > 0
    }
}

/// Builds a problem report piece by piece.
#[derive(Debug)]
pub struct ErrorBuilder {
    severity: Severity,
    message: Option<String>,
    source: Option<SourceId>,
    start: Option<Location>,
    end: Option<Location>,
}

impl ErrorBuilder {
    pub closed spec fn spec_severity(&self) -> Severity {
        self.severity
    }

    pub closed spec fn spec_message(&self) -> Option<String> {
        self.message
    }

    pub closed spec fn spec_source(&self) -> Option<SourceId> {
        self.source
    }

    pub closed spec fn spec_start(&self) -> Option<Location> {
        self.start
    }

    pub closed spec fn spec_end(&self) -> Option<Location> {
        self.end
    }

    /// A builder with nothing set yet.
    pub fn new(severity: Severity) -> (r: ErrorBuilder)
        ensures
            r.spec_severity() == severity,
            r.spec_message() is None,
            r.spec_start() is None,
            r.spec_end() is None,
            r.spec_source() is None,
    {
        ErrorBuilder { severity, message: None, source: None, start: None, end: None }
    }

    /// Sets the message. Required.
    pub fn message(self, msg: String) -> (r: ErrorBuilder)
        ensures
            r.spec_message() == Some(msg),
            r.spec_severity() == self.spec_severity(),
            r.spec_start() == self.spec_start(),
            r.spec_end() == self.spec_end(),
            r.spec_source() == self.spec_source(),
    {
        ErrorBuilder { message: Some(msg), ..self }
    }

    /// Sets the source file.
    pub fn in_source(self, source: Option<SourceId>) -> (r: ErrorBuilder)
        ensures
            r.spec_source() == source,
            r.spec_message() == self.spec_message(),
            r.spec_severity() == self.spec_severity(),
            r.spec_start() == self.spec_start(),
            r.spec_end() == self.spec_end(),
    {
        ErrorBuilder { source, ..self }
    }

    /// Sets the starting location. Required.
    pub fn starts_at(self, location: Location) -> (r: ErrorBuilder)
        ensures
            r.spec_start() == Some(location),
            r.spec_message() == self.spec_message(),
            r.spec_severity() == self.spec_severity(),
            r.spec_end() == self.spec_end(),
            r.spec_source() == self.spec_source(),
    {
        ErrorBuilder { start: Some(location), ..self }
    }

    /// Sets the ending location. Defaults to the starting location.
    pub fn ends_at(self, location: Location) -> (r: ErrorBuilder)
        ensures
            r.spec_end() == Some(location),
            r.spec_message() == self.spec_message(),
            r.spec_severity() == self.spec_severity(),
            r.spec_start() == self.spec_start(),
            r.spec_source() == self.spec_source(),
    {
        ErrorBuilder { end: Some(location), ..self }
    }

    /// The problem the builder describes, once message and starting location are set.
    pub open spec fn spec_built(&self) -> Error {
        Error {
            message: self.spec_message()->0,
            source: self.spec_source(),
            start: self.spec_start()->0,
            end: match self.spec_end() {
                Some(e) => e,
                None => self.spec_start()->0,
            },
        }
    }

    /// Builds the problem and stores it in the reporter, among errors or warnings by severity.
    pub fn report(self, reporter: &mut ErrorReporter)
        requires
            self.spec_message() is Some,
            self.spec_start() is Some,
        ensures
            self.spec_severity() == Severity::Deny ==> final(reporter).spec_errors() == old(
                reporter,
            ).spec_errors().push(self.spec_built()) && final(reporter).spec_warnings() == old(
                reporter,
            ).spec_warnings(),
            self.spec_severity() == Severity::Warn ==> final(reporter).spec_warnings() == old(
                reporter,
            ).spec_warnings().push(self.spec_built()) && final(reporter).spec_errors() == old(
                reporter,
            ).spec_errors(),
    {
        let ghost built = self.spec_built();
        let severity = self.severity;
        let message = match self.message {
            Some(m) => m,
            None => String::new(),
        };
        let start = match self.start {
            Some(s) => s,
            None => Location::start(),
        };
        let end = match self.end {
            Some(e) => e,
            None => start,
        };
        let error = Error { message, source: self.source, start, end };
        proof {
            assert(error == built);
        }
        reporter.report(error, severity);
    }
}

} // verus!
