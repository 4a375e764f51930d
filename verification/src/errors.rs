//! The error taxonomy of the planner and runtime.
//!
//! Parse-time errors come from the shell frontend, plan-time errors from
//! split-by-machine, graph errors mark invariant violations, and the
//! remaining kinds are surfaced by the runtime driver.
use vstd::prelude::*;

verus! {

/// Every failure the library can report.  The I/O kinds are never
/// constructed by the library itself; the runtime shell maps operating
/// system failures onto them before handing them back to a caller.
#[derive(Clone, Copy, Debug, PartialEq, Eq, Structural)]
pub enum Error {
    /// Mismatched quotes in the command line.
    Quotes,
    /// A `<(` with no matching `)`.
    UnclosedParens,
    /// The command's shape is not one the frontend handles.
    BadStructure,
    /// An empty command or pipeline segment.
    EmptyCommand,
    /// A node would have to execute on two different machines at once.
    LocationConflict,
    /// A path was not covered by the mount table in strict placement.
    UnknownMount,
    /// A stream was attached to a node kind that cannot carry it.
    InvalidRedirection,
    /// An edge or link named a node that is not in the graph.
    MissingNode,
    /// The same edge was offered to the graph twice.
    DuplicateEdge,
    /// A stream replacement did not find the stream it was to replace.
    StreamMismatch,
    /// The runtime could not open a connection.
    ConnectRefused,
    /// The runtime failed while reading bytes.
    ReadFailed,
    /// The runtime failed while writing bytes.
    WriteFailed,
    /// The runtime could not open a file.
    FileOpen,
    /// A wire frame ended before its announced length.
    ShortFrame,
    /// A wire frame carried an unrecognized type tag.
    UnknownTag,
    /// A wire payload did not decode to a value.
    DeserializeFailed,
    /// The remote side reported a failure return code.
    RemoteFailure,
    /// A consumer did not find its expected handle in a shared map.
    HandleMissing,
}

impl Error {
    /// The text shown for this error.
    pub open spec fn text(self) -> Seq<char> {
        match self {
            Error::Quotes => "mismatched quotes"@,
            Error::UnclosedParens => "unclosed parentheses"@,
            Error::BadStructure => "unsupported command structure"@,
            Error::EmptyCommand => "empty command"@,
            Error::LocationConflict => "conflicting execution locations"@,
            Error::UnknownMount => "path not covered by the mount table"@,
            Error::InvalidRedirection => "stream not valid for this node kind"@,
            Error::MissingNode => "node not present in the graph"@,
            Error::DuplicateEdge => "edge already present in the graph"@,
            Error::StreamMismatch => "stream to replace was not found"@,
            Error::ConnectRefused => "connection refused"@,
            Error::ReadFailed => "read failed"@,
            Error::WriteFailed => "write failed"@,
            Error::FileOpen => "could not open file"@,
            Error::ShortFrame => "frame shorter than its announced length"@,
            Error::UnknownTag => "unrecognized message tag"@,
            Error::DeserializeFailed => "payload did not decode"@,
            Error::RemoteFailure => "remote side reported failure"@,
            Error::HandleMissing => "expected handle was not in the map"@,
        }
    }

    /// A human-readable description, for the runtime shell to print.
    pub fn message(&self) -> (r: String)
        ensures
            r@ == self.text(),
    {
        match self {
            Error::Quotes => String::from_str("mismatched quotes"),
            Error::UnclosedParens => String::from_str("unclosed parentheses"),
            Error::BadStructure => String::from_str("unsupported command structure"),
            Error::EmptyCommand => String::from_str("empty command"),
            Error::LocationConflict => String::from_str("conflicting execution locations"),
            Error::UnknownMount => String::from_str("path not covered by the mount table"),
            Error::InvalidRedirection => String::from_str("stream not valid for this node kind"),
            Error::MissingNode => String::from_str("node not present in the graph"),
            Error::DuplicateEdge => String::from_str("edge already present in the graph"),
            Error::StreamMismatch => String::from_str("stream to replace was not found"),
            Error::ConnectRefused => String::from_str("connection refused"),
            Error::ReadFailed => String::from_str("read failed"),
            Error::WriteFailed => String::from_str("write failed"),
            Error::FileOpen => String::from_str("could not open file"),
            Error::ShortFrame => String::from_str("frame shorter than its announced length"),
            Error::UnknownTag => String::from_str("unrecognized message tag"),
            Error::DeserializeFailed => String::from_str("payload did not decode"),
            Error::RemoteFailure => String::from_str("remote side reported failure"),
            Error::HandleMissing => String::from_str("expected handle was not in the map"),
        }
    }
}

} // verus!
