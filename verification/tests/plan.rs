//! The text of a recording.

use ovreplay::plan::{Arg, Plan};

const SAMPLE: &str = "FORMAT ovreplay 1
DEVICE_NAME Intel(R) Arc(TM) Graphics
DRIVER_VERSION 26.35.39758
DEVICE_ID 32081
INPUT frame 2 0 128
OUTPUT score 5 0 4 f32
GOLDEN INPUT frame 0 128
GOLDEN OUTPUT score 128 4
W 1 0 64
S 2 128 1
H 5 4
PROG 3 100
KERN 4 3 gen_conv
NDR 4 3 16 1 1 16 1 1 0 0 0 4
 U 1 0
 V 4 00 00 80 3f
 L 256
 N
";

#[test]
fn parses_a_recording() {
    let Ok(p) = Plan::parse(SAMPLE) else { panic!("the sample is a recording") };
    assert_eq!(p.device_name, "Intel(R) Arc(TM) Graphics");
    assert_eq!(p.driver_version, "26.35.39758");
    assert_eq!(p.device_id, Some(32081));
    assert_eq!(p.inputs[0].name, "frame");
    assert_eq!(p.inputs[0].golden, 0);
    assert_eq!(p.outputs[0].element_type, "f32");
    assert_eq!(p.outputs[0].golden, 128);
    assert_eq!(p.launches[0].name, "gen_conv");
    let args = &p.launches[0].args;
    assert!(matches!(args[0], Arg::Ptr { alloc: 1, off: 0 }));
    assert!(matches!(args[1], Arg::Value(ref b) if b == &[0, 0, 0x80, 0x3f]));
    assert!(matches!(args[2], Arg::Local(256)));
    assert!(matches!(args[3], Arg::Null));
    assert_eq!(p.max_alloc_id(), 5);
}

#[test]
fn refuses_other_formats_unknown_records_and_short_values() {
    assert!(Plan::parse(&SAMPLE.replace("ovreplay 1", "ovreplay 2")).is_err());
    assert!(Plan::parse(&SAMPLE.replace("PROG 3 100", "MAP 3")).is_err());
    assert!(Plan::parse(&SAMPLE.replace(" V 4 00 00 80 3f", " V 4 00 00")).is_err());
    assert!(Plan::parse(&SAMPLE.replace(" N\n", " M 3\n")).is_err());
    assert!(Plan::parse(&SAMPLE.replace(" N\n", "")).is_err());
}

#[test]
fn requires_golden_data_of_the_right_size() {
    assert!(Plan::parse(&SAMPLE.replace("GOLDEN OUTPUT score 128 4\n", "")).is_err());
    assert!(Plan::parse(&SAMPLE.replace("GOLDEN INPUT frame 0 128", "GOLDEN INPUT frame 0 64")).is_err());
    assert!(Plan::parse(&SAMPLE.replace("GOLDEN INPUT", "GOLDEN SIDEWAYS")).is_err());
}

fn refusal(text: &str) -> String {
    match Plan::parse(text) {
        Ok(_) => panic!("not refused"),
        Err(m) => m,
    }
}

fn plan(text: &str) -> Plan {
    match Plan::parse(text) {
        Ok(p) => p,
        Err(m) => panic!("{m}"),
    }
}

#[test]
fn reads_every_field() {
    let p = plan(SAMPLE);
    assert_eq!(p.inputs.len(), 1);
    assert_eq!((p.inputs[0].alloc, p.inputs[0].off, p.inputs[0].bytes), (2, 0, 128));
    assert_eq!(p.inputs[0].element_type, "u8");
    assert_eq!(p.outputs.len(), 1);
    assert_eq!(p.outputs[0].name, "score");
    assert_eq!((p.outputs[0].alloc, p.outputs[0].off, p.outputs[0].bytes), (5, 0, 4));
    assert_eq!((p.weights[0].id, p.weights[0].off, p.weights[0].size), (1, 0, 64));
    assert_eq!((p.scratch[0].id, p.scratch[0].off, p.scratch[0].size), (2, 0, 128));
    assert_eq!((p.host[0].id, p.host[0].off, p.host[0].size), (5, 0, 4));
    assert_eq!(p.programs, vec![3]);
    let l = &p.launches[0];
    assert_eq!((l.program, l.dim), (3, 3));
    assert_eq!((l.global, l.local, l.offset), ([16, 1, 1], [16, 1, 1], [0, 0, 0]));
    assert_eq!(l.args.len(), 4);
}

#[test]
fn says_what_is_wrong_with_a_text() {
    assert_eq!(refusal(""), "not an ovreplay 1 recording (FORMAT )");
    assert_eq!(
        refusal(&SAMPLE.replace("ovreplay 1", "ovreplay 2")),
        "not an ovreplay 1 recording (FORMAT ovreplay 2)"
    );
    assert_eq!(
        refusal("FORMAT ovreplay 1\n"),
        "recording is missing its device, inputs, outputs or launches"
    );
    assert_eq!(
        refusal(&SAMPLE.replace("DEVICE_NAME Intel(R) Arc(TM) Graphics\n", "")),
        "recording is missing its device, inputs, outputs or launches"
    );
    assert_eq!(refusal(&SAMPLE.replace("PROG 3 100", "MAP 3")), "unknown record MAP");
    assert_eq!(refusal(&SAMPLE.replace("PROG 3 100", "PROG x")), "bad line: PROG x");
    assert_eq!(refusal(&SAMPLE.replace("PROG 3 100", "PROG")), "bad line: PROG");
    assert_eq!(refusal(&SAMPLE.replace("W 1 0 64", "W 1 0")), "bad line: W 1 0");
    assert_eq!(refusal(&SAMPLE.replace("KERN 4 3 gen_conv", "KERN 4 3")), "bad line: KERN 4 3");
    assert_eq!(
        refusal(&SAMPLE.replace("DEVICE_ID 32081", "DEVICE_ID 4294967296")),
        "bad line: DEVICE_ID 4294967296"
    );
    assert_eq!(refusal(&SAMPLE.replace("KERN 4", "KERN 7")), "launch of unknown kernel 4");
}

#[test]
fn says_what_is_wrong_with_an_argument() {
    assert_eq!(
        refusal(&SAMPLE.replace(" V 4 00 00 80 3f", " V 4 00 00")),
        "value arg has 2 of 4 bytes:  V 4 00 00"
    );
    assert_eq!(refusal(&SAMPLE.replace("80 3f", "80 3g")), "bad arg:  V 4 00 00 80 3g");
    assert_eq!(refusal(&SAMPLE.replace("80 3f", "80 100")), "bad arg:  V 4 00 00 80 100");
    assert_eq!(refusal(&SAMPLE.replace(" N\n", " M 3\n")), "unsupported arg:  M 3");
    assert_eq!(refusal(&SAMPLE.replace(" N\n", "\n")), "unsupported arg: ");
    assert_eq!(refusal(&SAMPLE.replace(" N\n", "")), "launch truncated");
    assert_eq!(refusal(&SAMPLE.replace(" U 1 0", " U 1")), "bad line:  U 1");
    assert_eq!(refusal(&SAMPLE.replace(" L 256", " L")), "bad line:  L");
    assert_eq!(refusal(&SAMPLE.replace(" V 4", " V")), "value arg has 3 of 0 bytes:  V 00 00 80 3f");
}

#[test]
fn says_what_is_wrong_with_golden_data() {
    assert_eq!(refusal(&SAMPLE.replace("GOLDEN OUTPUT score 128 4\n", "")), "no golden data for score");
    assert_eq!(
        refusal(&SAMPLE.replace("GOLDEN INPUT frame 0 128", "GOLDEN INPUT frame 0 64")),
        "golden data for frame is 64 bytes, port is 128"
    );
    assert_eq!(
        refusal(&SAMPLE.replace("GOLDEN INPUT", "GOLDEN SIDEWAYS")),
        "bad line: GOLDEN SIDEWAYS frame 0 128"
    );
    assert_eq!(
        refusal(&SAMPLE.replace("GOLDEN INPUT frame", "GOLDEN OUTPUT frame")),
        "no golden data for frame"
    );
}

#[test]
fn skips_blank_lines_and_takes_both_line_endings() {
    let spaced = SAMPLE.replace("DEVICE_ID", "\n \t\nDEVICE_ID").replace('\n', "\r\n");
    let p = plan(&spaced);
    assert_eq!(p.device_id, Some(32081));
    assert_eq!(p.driver_version, "26.35.39758");
    assert_eq!(p.launches[0].args.len(), 4);
}

#[test]
fn later_records_of_one_name_replace_earlier_ones() {
    let text = SAMPLE
        .replace("KERN 4 3 gen_conv", "KERN 4 9 other\nKERN 4 3 gen_conv")
        .replace("GOLDEN INPUT frame 0 128", "GOLDEN INPUT frame 7 1\nGOLDEN INPUT frame 12 128")
        .replace("DEVICE_ID 32081", "DEVICE_ID 1\nDEVICE_ID 2");
    let p = plan(&text);
    assert_eq!(p.launches[0].name, "gen_conv");
    assert_eq!(p.launches[0].program, 3);
    assert_eq!(p.inputs[0].golden, 12);
    assert_eq!(p.device_id, Some(2));
}

#[test]
fn the_text_of_a_record_begins_behind_the_tags_bytes() {
    let p = plan(&SAMPLE.replace("DEVICE_NAME Intel(R) Arc(TM) Graphics", "DEVICE_NAME  a  b \t"));
    assert_eq!(p.device_name, "a  b");
    let p = plan(&SAMPLE.replace("DEVICE_NAME Intel(R) Arc(TM) Graphics", "  DEVICE_NAME gpu"));
    assert_eq!(p.device_name, "ME gpu");
    let p = plan(&SAMPLE.replace("DEVICE_NAME Intel(R) Arc(TM) Graphics", "DEVICE_NAME\u{3000}\u{e9}"));
    assert_eq!(p.device_name, "\u{e9}");
}

#[test]
fn an_output_without_a_type_is_bytes() {
    let p = plan(&SAMPLE.replace("OUTPUT score 5 0 4 f32", "OUTPUT score 5 0 4"));
    assert_eq!(p.outputs[0].element_type, "u8");
    let p = plan(&SAMPLE.replace("INPUT frame 2 0 128\n", "INPUT frame 2 0 128 f16\n"));
    assert_eq!(p.inputs[0].element_type, "u8");
}

#[test]
fn no_allocation_has_the_identifier_zero() {
    let text = SAMPLE.replace("W 1 0 64\n", "").replace("S 2 128 1\n", "").replace("H 5 4\n", "");
    assert_eq!(plan(&text).max_alloc_id(), 0);
    assert_eq!(plan(&SAMPLE.replace("W 1 0 64", "W 77 0 64")).max_alloc_id(), 77);
}
