//! What the runner is asked to do.

use ovreplay::layout::{Buffer, Place};
use ovreplay::replay::Io;
use ovreplay::runner::{check_given, parse_args, Args, InputFile, USAGE};
use ovreplay::Replay;

fn asked(words: &[&str]) -> Result<Args, String> {
    parse_args(&words.iter().map(|w| (*w).to_owned()).collect())
}

fn refusal(words: &[&str]) -> String {
    match asked(words) {
        Ok(_) => panic!("not refused"),
        Err(m) => m,
    }
}

#[test]
fn a_directory_is_enough() {
    let Ok(a) = asked(&["model.replay"]) else { panic!("a directory is enough") };
    assert_eq!((a.dir.as_str(), a.inputs.len(), a.bench), ("model.replay", 0, 10));
    let Ok(a) = asked(&[""]) else { panic!("an empty name is one") };
    assert_eq!(a.dir, "");
}

#[test]
fn inputs_and_runs_are_taken() {
    let Ok(a) = asked(&["--input", "x=f=g", "d", "--bench", "200", "--input", "=", "--bench", "3"]) else {
        panic!("all of these are taken")
    };
    assert_eq!((a.dir.as_str(), a.bench), ("d", 3));
    assert_eq!((a.inputs[0].name.as_str(), a.inputs[0].file.as_str()), ("x", "f=g"));
    assert_eq!((a.inputs[1].name.as_str(), a.inputs[1].file.as_str()), ("", ""));
}

#[test]
fn other_words_are_answered_with_the_usage() {
    let cases: [&[&str]; 9] = [
        &[],
        &["-h"],
        &["d", "--help"],
        &["d", "e"],
        &["d", "-x"],
        &["d", "--input"],
        &["d", "--bench"],
        &["d", "--bench", "many"],
        &["--bench", "3"],
    ];
    for words in cases {
        assert_eq!(refusal(words), USAGE);
    }
    assert_eq!(refusal(&["d", "--input", "x"]), "--input wants NAME=FILE, got x");
}

fn io(name: &str) -> Io {
    Io {
        name: name.to_owned(),
        place: Place { buffer: Buffer::Weights, off: 0 },
        bytes: 1,
        element_type: "u8".to_owned(),
        golden: 0,
    }
}

fn file(name: &str) -> InputFile {
    InputFile { name: name.to_owned(), file: "f".to_owned() }
}

#[test]
fn every_input_needs_a_file() {
    let r = Replay { launches: Vec::new(), inputs: vec![io("a"), io("b"), io("c")], outputs: Vec::new() };
    assert!(check_given(&r, &vec![file("c"), file("a"), file("b"), file("z")]).is_ok());
    let Err(e) = check_given(&r, &vec![file("a")]) else { panic!("two are missing") };
    assert_eq!(e.message(), "no input named b (pass --input b=FILE)");
}
