//! What is said of errors.

use ovreplay::{ClError, Error};

#[test]
fn every_error_has_its_message() {
    let s = str::to_owned;
    assert_eq!(
        Error::Io { path: s("golden.bin"), source: s("not found") }.message(),
        "reading golden.bin: not found"
    );
    assert_eq!(
        Error::Parse { path: s("replay.txt"), message: s("unknown record X") }.message(),
        "replay.txt: unknown record X"
    );
    assert_eq!(
        Error::DeviceMismatch { recorded: s("a / 1"), found: s("b / 2") }.message(),
        "recorded on a / 1, running on b / 2; re-record"
    );
    assert_eq!(
        Error::GoldenMismatch { output: s("score"), differing: 3, bytes: 40 }.message(),
        "output score differs from the recording in 3 of 40 bytes; re-record"
    );
    assert_eq!(Error::NoInput(s("x")).message(), "no input named x");
    assert_eq!(Error::NoOutput(s("y")).message(), "no output named y");
    assert_eq!(
        Error::InputSize { name: s("x"), expected: 128, got: 64 }.message(),
        "input x takes 128 bytes, got 64"
    );
    assert_eq!(
        Error::OutputType { name: s("y"), element_type: s("f16"), wanted: "f32" }.message(),
        "output y is f16, not f32"
    );
    assert_eq!(
        Error::Cl(ClError { call: "clFinish", code: -5 }).message(),
        "OpenCL: clFinish failed: -5"
    );
}
