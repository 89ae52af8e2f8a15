//! What can go wrong with a recording, on its way in or on the device.

use vstd::prelude::*;

use crate::cl::{cl_message, ClError, ClErrorView};
use crate::number::{decimal, write_decimal};

verus! {

/// A path is that of a file inside the recording's directory.
pub enum Error {
    Io { path: String, source: String },
    Parse { path: String, message: String },
    DeviceMismatch { recorded: String, found: String },
    GoldenMismatch { output: String, differing: usize, bytes: usize },
    NoInput(String),
    NoOutput(String),
    InputSize { name: String, expected: usize, got: usize },
    OutputType { name: String, element_type: String, wanted: &'static str },
    Cl(ClError),
}

/// An `Error`, its texts taken as sequences.
pub enum ErrorView {
    Io { path: Seq<char>, source: Seq<char> },
    Parse { path: Seq<char>, message: Seq<char> },
    DeviceMismatch { recorded: Seq<char>, found: Seq<char> },
    GoldenMismatch { output: Seq<char>, differing: usize, bytes: usize },
    NoInput(Seq<char>),
    NoOutput(Seq<char>),
    InputSize { name: Seq<char>, expected: usize, got: usize },
    OutputType { name: Seq<char>, element_type: Seq<char>, wanted: Seq<char> },
    Cl(ClErrorView),
}

impl View for Error {
    type V = ErrorView;

    open spec fn view(&self) -> ErrorView {
        match self {
            Error::Io { path, source } => ErrorView::Io { path: path@, source: source@ },
            Error::Parse { path, message } => ErrorView::Parse { path: path@, message: message@ },
            Error::DeviceMismatch { recorded, found } => ErrorView::DeviceMismatch {
                recorded: recorded@,
                found: found@,
            },
            Error::GoldenMismatch { output, differing, bytes } => ErrorView::GoldenMismatch {
                output: output@,
                differing: *differing,
                bytes: *bytes,
            },
            Error::NoInput(name) => ErrorView::NoInput(name@),
            Error::NoOutput(name) => ErrorView::NoOutput(name@),
            Error::InputSize { name, expected, got } => ErrorView::InputSize {
                name: name@,
                expected: *expected,
                got: *got,
            },
            Error::OutputType { name, element_type, wanted } => ErrorView::OutputType {
                name: name@,
                element_type: element_type@,
                wanted: wanted@,
            },
            Error::Cl(e) => ErrorView::Cl(e@),
        }
    }
}

/// What is said of an error.
pub open spec fn error_message(e: ErrorView) -> Seq<char> {
    match e {
        ErrorView::Io { path, source } => "reading "@ + path + ": "@ + source,
        ErrorView::Parse { path, message } => path + ": "@ + message,
        ErrorView::DeviceMismatch { recorded, found } => "recorded on "@ + recorded
            + ", running on "@ + found + "; re-record"@,
        ErrorView::GoldenMismatch { output, differing, bytes } => "output "@ + output
            + " differs from the recording in "@ + decimal(differing as int) + " of "@ + decimal(
            bytes as int,
        ) + " bytes; re-record"@,
        ErrorView::NoInput(name) => "no input named "@ + name,
        ErrorView::NoOutput(name) => "no output named "@ + name,
        ErrorView::InputSize { name, expected, got } => "input "@ + name + " takes "@ + decimal(
            expected as int,
        ) + " bytes, got "@ + decimal(got as int),
        ErrorView::OutputType { name, element_type, wanted } => "output "@ + name + " is "@
            + element_type + ", not "@ + wanted,
        ErrorView::Cl(e) => "OpenCL: "@ + cl_message(e),
    }
}

impl Error {
    pub fn message(&self) -> (r: String)
        ensures
            r@ == error_message(self@),
    {
        match self {
            Error::Io { path, source } => {
                let mut m: String = "reading ".to_owned();
                m.append(path.as_str());
                m.append(": ");
                m.append(source.as_str());
                m
            },
            Error::Parse { path, message } => {
                let mut m: String = path.clone();
                m.append(": ");
                m.append(message.as_str());
                m
            },
            Error::DeviceMismatch { recorded, found } => {
                let mut m: String = "recorded on ".to_owned();
                m.append(recorded.as_str());
                m.append(", running on ");
                m.append(found.as_str());
                m.append("; re-record");
                m
            },
            Error::GoldenMismatch { output, differing, bytes } => {
                let mut m: String = "output ".to_owned();
                m.append(output.as_str());
                m.append(" differs from the recording in ");
                m.append(write_decimal(*differing).as_str());
                m.append(" of ");
                m.append(write_decimal(*bytes).as_str());
                m.append(" bytes; re-record");
                m
            },
            Error::NoInput(name) => {
                let mut m: String = "no input named ".to_owned();
                m.append(name.as_str());
                m
            },
            Error::NoOutput(name) => {
                let mut m: String = "no output named ".to_owned();
                m.append(name.as_str());
                m
            },
            Error::InputSize { name, expected, got } => {
                let mut m: String = "input ".to_owned();
                m.append(name.as_str());
                m.append(" takes ");
                m.append(write_decimal(*expected).as_str());
                m.append(" bytes, got ");
                m.append(write_decimal(*got).as_str());
                m
            },
            Error::OutputType { name, element_type, wanted } => {
                let mut m: String = "output ".to_owned();
                m.append(name.as_str());
                m.append(" is ");
                m.append(element_type.as_str());
                m.append(", not ");
                m.append(wanted);
                m
            },
            Error::Cl(e) => {
                let mut m: String = "OpenCL: ".to_owned();
                m.append(e.message().as_str());
                m
            },
        }
    }
}

/// Nothing of an error is lost in its view.
pub proof fn law_errors_are_seen_whole(e: Error)
    ensures
        match e {
            Error::Io { path, source } => e@ == (ErrorView::Io { path: path@, source: source@ }),
            Error::Parse { path, message } => e@ == (ErrorView::Parse {
                path: path@,
                message: message@,
            }),
            Error::DeviceMismatch { recorded, found } => e@ == (ErrorView::DeviceMismatch {
                recorded: recorded@,
                found: found@,
            }),
            Error::GoldenMismatch { output, differing, bytes } => e@ == (
            ErrorView::GoldenMismatch { output: output@, differing, bytes }),
            Error::NoInput(name) => e@ == ErrorView::NoInput(name@),
            Error::NoOutput(name) => e@ == ErrorView::NoOutput(name@),
            Error::InputSize { name, expected, got } => e@ == (ErrorView::InputSize {
                name: name@,
                expected,
                got,
            }),
            Error::OutputType { name, element_type, wanted } => e@ == (ErrorView::OutputType {
                name: name@,
                element_type: element_type@,
                wanted: wanted@,
            }),
            Error::Cl(c) => e@ == ErrorView::Cl(c@),
        },
{
}

/// A message names all that its error holds, each thing behind the words that
/// say what it is.
pub proof fn law_messages_tell_the_whole_error(
    a: Seq<char>,
    b: Seq<char>,
    c: Seq<char>,
    m: usize,
    n: usize,
    cl: ClErrorView,
)
    ensures
        error_message(ErrorView::Io { path: a, source: b }) == "reading "@ + a + ": "@ + b,
        error_message(ErrorView::Parse { path: a, message: b }) == a + ": "@ + b,
        error_message(ErrorView::DeviceMismatch { recorded: a, found: b }) == "recorded on "@ + a
            + ", running on "@ + b + "; re-record"@,
        error_message(ErrorView::GoldenMismatch { output: a, differing: m, bytes: n })
            == "output "@ + a + " differs from the recording in "@ + decimal(m as int) + " of "@
            + decimal(n as int) + " bytes; re-record"@,
        error_message(ErrorView::NoInput(a)) == "no input named "@ + a,
        error_message(ErrorView::NoOutput(a)) == "no output named "@ + a,
        error_message(ErrorView::InputSize { name: a, expected: m, got: n }) == "input "@ + a
            + " takes "@ + decimal(m as int) + " bytes, got "@ + decimal(n as int),
        error_message(ErrorView::OutputType { name: a, element_type: b, wanted: c }) == "output "@
            + a + " is "@ + b + ", not "@ + c,
        error_message(ErrorView::Cl(cl)) == "OpenCL: "@ + cl_message(cl),
{
}

} // verus!
