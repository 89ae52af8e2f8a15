//! A recording on its way in: the device, the script, the ports, the recorded
//! inference, and the runs behind them.

use ovreplay::layout::{Buffer, Place, Slot, Slots};
use ovreplay::load::{describe, Building, Device, Loaded, Unverified};
use ovreplay::replay::{count_differing, Addresses, Order};
use ovreplay::script::{build, Command};
use ovreplay::{Error, Plan, Replay};

const SAMPLE: &str = "FORMAT ovreplay 1
DEVICE_NAME gpu
DRIVER_VERSION 7
DEVICE_ID 32081
INPUT frame 2 4 8
OUTPUT score 5 4 8 f32
OUTPUT mask 5 0 2 u8
GOLDEN INPUT frame 0 8
GOLDEN OUTPUT score 8 8
GOLDEN OUTPUT mask 16 2
W 1 16 48
W 3 0 0
S 2 128 1
H 5 12
H 6 0
PROG 3 100
PROG 8 100
KERN 4 3 conv
KERN 9 8 pool
NDR 4 3 16 2 1 16 1 1 1 0 0 4
 U 1 8
 V 4 00 00 80 3f
 L 256
 N
NDR 9 1 5 0 0 0 0 0 0 0 0 1
 U 5 12
";

const WEIGHTS: usize = 64;

fn plan(text: &str) -> Plan {
    match Plan::parse(text) {
        Ok(p) => p,
        Err(m) => panic!("{m}"),
    }
}

fn device(name: &str, id: Option<u32>, driver: &str) -> Device {
    Device { name: name.to_owned(), id, driver: driver.to_owned() }
}

fn addresses() -> Addresses {
    Addresses { weights: 0x1000, scratch: vec![0x2000], host: vec![0x3000, 0x4000] }
}

fn refused(e: Result<impl Sized, Error>) -> String {
    match e {
        Ok(_) => panic!("not refused"),
        Err(e) => e.message(),
    }
}

/// Load as far as the commands go.
fn building(text: &str, driver: &str) -> Building {
    let Ok(load) = Replay::load(plan(text), &device("gpu", Some(32081), driver)) else { panic!("the device is right") };
    assert!(load.has_room());
    load.build(WEIGHTS).1
}

fn ready(text: &str) -> Replay {
    match building(text, "7").finish(&addresses()) {
        Ok(Loaded::Ready(r)) => r,
        Ok(Loaded::Unverified(_)) => panic!("the driver is the recorded one"),
        Err(e) => panic!("{}", e.message()),
    }
}

fn unverified() -> Unverified {
    match building(SAMPLE, "8").finish(&addresses()) {
        Ok(Loaded::Unverified(u)) => u,
        Ok(Loaded::Ready(_)) => panic!("the driver is another"),
        Err(e) => panic!("{}", e.message()),
    }
}

fn golden() -> Vec<u8> {
    (0..18).collect()
}

#[test]
fn devices_are_described() {
    assert_eq!(describe("gpu", None, "7"), "gpu / 7");
    assert_eq!(describe("gpu", Some(32081), "7"), "gpu [0x7d51] / 7");
    assert_eq!(describe("gpu", Some(5), "7"), "gpu [0x0005] / 7");
}

#[test]
fn another_device_is_refused() {
    assert_eq!(
        refused(Replay::load(plan(SAMPLE), &device("cpu", Some(32081), "7"))),
        "recorded on gpu [0x7d51] / 7, running on cpu [0x7d51] / 7; re-record"
    );
    assert_eq!(
        refused(Replay::load(plan(SAMPLE), &device("gpu", Some(1), "9"))),
        "recorded on gpu [0x7d51] / 7, running on gpu [0x0001] / 9; re-record"
    );
    assert!(Replay::load(plan(SAMPLE), &device("gpu", None, "7")).is_ok());
    let nameless = SAMPLE.replace("DEVICE_ID 32081\n", "");
    assert!(Replay::load(plan(&nameless), &device("gpu", Some(1), "7")).is_ok());
    assert_eq!(
        refused(Replay::load(plan(&nameless), &device("x", None, "7"))),
        "recorded on gpu / 7, running on x / 7; re-record"
    );
}

#[test]
fn the_largest_identifier_leaves_no_room() {
    let text = SAMPLE.replace("H 6 0", &format!("H {} 0", usize::MAX));
    let Ok(load) = Replay::load(plan(&text), &device("gpu", None, "7")) else { panic!("the device is right") };
    assert!(!load.has_room());
}

#[test]
fn a_recording_is_made_ready_in_order() {
    let (commands, outcome) = build(&plan(SAMPLE), WEIGHTS);
    assert!(outcome.is_ok());
    let mut it = commands.iter();
    assert!(matches!(it.next(), Some(Command::AllocWeights(64))));
    assert!(matches!(it.next(), Some(Command::UploadWeights)));
    assert!(matches!(it.next(), Some(Command::AllocDevice(128))));
    assert!(matches!(it.next(), Some(Command::AllocHost(12))));
    assert!(matches!(it.next(), Some(Command::AllocHost(1))));
    assert!(matches!(it.next(), Some(Command::LoadProgram { program: 3, file }) if file == "prog_3.bin"));
    assert!(matches!(it.next(), Some(Command::LoadProgram { program: 8, file }) if file == "prog_8.bin"));
    assert!(matches!(it.next(), Some(Command::CreateKernel { program: 3, name }) if name == "conv"));
    let at = Place { buffer: Buffer::Weights, off: 24 };
    assert!(matches!(it.next(), Some(Command::BindPtr { index: 0, at: a }) if *a == at));
    assert!(matches!(it.next(), Some(Command::BindValue { index: 1, bytes }) if bytes == &[0, 0, 0x80, 0x3f]));
    assert!(matches!(it.next(), Some(Command::BindLocal { index: 2, size: 256 })));
    assert!(matches!(it.next(), Some(Command::BindNull { index: 3 })));
    assert!(matches!(it.next(), Some(Command::CreateKernel { program: 8, name }) if name == "pool"));
    let at = Place { buffer: Buffer::Host(0), off: 12 };
    assert!(matches!(it.next(), Some(Command::BindPtr { index: 0, at: a }) if *a == at));
    assert!(it.next().is_none());
    let uploads = commands.iter().filter(|c| matches!(c, Command::UploadWeights)).count();
    assert_eq!(uploads, 1);
}

#[test]
fn an_empty_file_of_weights_still_takes_memory() {
    let text = SAMPLE.replace("W 1 16 48\n", "W 1 0 0\n").replace(" U 1 8", " U 1 0");
    let (commands, outcome) = build(&plan(&text), 0);
    assert!(outcome.is_ok());
    assert!(matches!(commands[0], Command::AllocWeights(1)));
}

/// What stops a recording, and how many commands come before.
fn stopped(text: &str) -> (usize, String) {
    let (commands, outcome) = build(&plan(text), WEIGHTS);
    (commands.len(), refused(outcome))
}

#[test]
fn a_plan_that_does_not_fit_its_lists_is_stopped() {
    let cases = [
        ("W 1 16 48", "W 1 17 48", 2, "replay.txt: allocation 1 lies outside weights.bin"),
        ("W 1 16 48", "W 1 16 18446744073709551615", 2, "replay.txt: allocation 1 lies outside weights.bin"),
        ("W 3 0 0", "W 1 0 0", 2, "replay.txt: allocation 1 listed twice"),
        ("S 2 128 1", "S 1 128 1", 3, "replay.txt: allocation 1 listed twice"),
        ("H 6 0", "H 5 0", 5, "replay.txt: allocation 5 listed twice"),
        ("KERN 4 3 conv", "KERN 4 11 conv", 7, "replay.txt: no program 11"),
        ("KERN 4 3 conv", "KERN 4 3 co\0nv", 7, "OpenCL: clCreateKernel failed: 0"),
        (" U 1 8", " U 4 8", 8, "replay.txt: allocation 4 missing"),
        (" U 1 8", " U 99 8", 8, "replay.txt: allocation 99 missing"),
        (" U 1 8", " U 1 49", 8, "replay.txt: 0 bytes at 49 overrun allocation 1 of 48"),
        (" U 5 12", " U 5 13", 13, "replay.txt: 0 bytes at 13 overrun allocation 5 of 12"),
    ];
    for (from, to, commands, message) in cases {
        assert_eq!(stopped(&SAMPLE.replace(from, to)), (commands, message.to_owned()), "{to}");
    }
}

#[test]
fn a_stop_is_the_outcome_of_a_load() {
    let b = building(&SAMPLE.replace(" U 1 8", " U 4 8"), "7");
    assert_eq!(refused(b.finish(&addresses())), "replay.txt: allocation 4 missing");
}

#[test]
fn slots_are_found_by_identifier() {
    let mut slots = Slots::new(&plan(SAMPLE));
    let slot = Slot { place: Place { buffer: Buffer::Weights, off: 16 }, size: 48, host: false };
    assert!(slots.bind(1, slot).is_ok());
    assert_eq!(refused(slots.bind(1, slot)), "replay.txt: allocation 1 listed twice");
    assert_eq!(refused(slots.bind(7, slot)), "replay.txt: allocation 7 listed twice");
    let (s, at) = slots.locate(1, 40, 8).unwrap();
    assert_eq!(s, slot);
    assert_eq!(at, Place { buffer: Buffer::Weights, off: 56 });
    assert_eq!(slots.locate(1, 40, 9).unwrap_err(), "9 bytes at 40 overrun allocation 1 of 48");
    assert_eq!(slots.locate(2, 0, 0).unwrap_err(), "allocation 2 missing");
    assert_eq!(
        slots.locate(1, usize::MAX, 1).unwrap_err(),
        format!("1 bytes at {} overrun allocation 1 of 48", usize::MAX)
    );
}

#[test]
fn ports_lie_where_the_plan_says() {
    let r = ready(SAMPLE);
    assert_eq!(r.inputs(), vec![("frame".to_owned(), 8)]);
    assert_eq!(
        r.outputs(),
        vec![("score".to_owned(), 8, "f32".to_owned()), ("mask".to_owned(), 2, "u8".to_owned())]
    );
    assert_eq!(r.inputs[0].place, Place { buffer: Buffer::Scratch(0), off: 4 });
    assert_eq!(r.outputs[0].place, Place { buffer: Buffer::Host(0), off: 4 });
    assert_eq!((r.inputs[0].golden, r.outputs[0].golden, r.outputs[1].golden), (0, 8, 16));
}

#[test]
fn ports_that_lie_nowhere_are_refused() {
    let cases = [
        ("INPUT frame 2 4 8\n", "INPUT frame 2 121 8\n", "replay.txt: 8 bytes at 121 overrun allocation 2 of 128"),
        ("INPUT frame 2 4 8\n", "INPUT frame 4 4 8\n", "replay.txt: allocation 4 missing"),
        ("OUTPUT score 5 4 8 f32", "OUTPUT score 2 4 8 f32", "replay.txt: output score is not in host memory"),
        ("OUTPUT score 5 4 8 f32", "OUTPUT score 5 2 8 f32", "replay.txt: f32 port score is misaligned"),
    ];
    for (from, to, message) in cases {
        let b = building(&SAMPLE.replace(from, to), "7");
        assert_eq!(refused(b.finish(&addresses())), message, "{to}");
    }
    let odd = SAMPLE
        .replace("OUTPUT score 5 4 8 f32", "OUTPUT score 5 4 6 f32")
        .replace("GOLDEN OUTPUT score 8 8", "GOLDEN OUTPUT score 8 6");
    assert_eq!(refused(building(&odd, "7").finish(&addresses())), "replay.txt: f32 port score is misaligned");
    let off = Addresses { host: vec![0x3001, 0x4000], ..addresses() };
    assert_eq!(refused(building(SAMPLE, "7").finish(&off)), "replay.txt: f32 port score is misaligned");
    let even = Addresses { host: vec![0x3003, 0x4000], ..addresses() };
    assert!(building(&SAMPLE.replace("score 5 4 8", "score 5 1 8"), "7").finish(&even).is_ok());
}

#[test]
fn a_run_is_the_launches_and_a_finish() {
    let orders = ready(SAMPLE).run();
    assert_eq!(orders.len(), 3);
    assert!(matches!(
        orders[0],
        Order::Launch { launch: 0, dim: 3, offset: [1, 0, 0], global: [16, 2, 1], local: Some([16, 1, 1]) }
    ));
    assert!(matches!(
        orders[1],
        Order::Launch { launch: 1, dim: 1, offset: [0, 0, 0], global: [5, 0, 0], local: None }
    ));
    assert!(matches!(orders[2], Order::Finish));
}

#[test]
fn inputs_take_their_exact_size() {
    let r = ready(SAMPLE);
    assert_eq!(r.set_input("frame", &[0; 8]).ok(), Some(Place { buffer: Buffer::Scratch(0), off: 4 }));
    assert_eq!(refused(r.set_input("frame", &[0; 7])), "input frame takes 8 bytes, got 7");
    assert_eq!(refused(r.set_input("score", &[0; 8])), "no input named score");
}

#[test]
fn outputs_are_found_by_name() {
    let r = ready(SAMPLE);
    let Ok(w) = r.output("mask") else { panic!("an output") };
    assert_eq!((w.place, w.bytes), (Place { buffer: Buffer::Host(0), off: 0 }, 2));
    assert_eq!(r.output_f32("score").ok(), Some((Place { buffer: Buffer::Host(0), off: 4 }, 2)));
    assert_eq!(refused(r.output("frame")), "no output named frame");
    assert_eq!(refused(r.output_f32("frame")), "no output named frame");
    assert_eq!(refused(r.output_f32("mask")), "output mask is u8, not f32");
}

#[test]
fn of_two_ports_the_first_has_the_name() {
    let text = SAMPLE.replace("INPUT frame 2 4 8\n", "INPUT frame 2 4 8\nINPUT frame 2 64 8\n");
    let at = ready(&text).set_input("frame", &[0; 8]).ok();
    assert_eq!(at, Some(Place { buffer: Buffer::Scratch(0), off: 4 }));
}

#[test]
fn the_recorded_inference_is_replayed_from_its_inputs() {
    let r = ready(SAMPLE);
    let (orders, outcome) = r.verify(&golden());
    assert!(outcome.is_ok());
    assert_eq!(orders.len(), 4);
    assert!(matches!(orders[0], Order::Write { input: 0, from: 0, to: 8 }));
    assert!(matches!(orders[1], Order::Launch { launch: 0, .. }));
    assert!(matches!(orders[3], Order::Finish));
}

#[test]
fn a_short_recording_is_stopped() {
    let r = ready(SAMPLE);
    let (orders, outcome) = r.verify(&golden()[..7]);
    assert!(orders.is_empty());
    assert_eq!(refused(outcome), "golden.bin: too short for frame");
    let (orders, outcome) = r.verify(&golden()[..8]);
    assert_eq!((orders.len(), outcome.is_ok()), (4, true));
    let got = vec![vec![0; 8], vec![0; 2]];
    assert_eq!(refused(r.check_outputs(&golden()[..8], &got)), "golden.bin: too short for score");
}

#[test]
fn outputs_must_be_bit_identical() {
    let r = ready(SAMPLE);
    let g = golden();
    let good = vec![g[8..16].to_vec(), g[16..18].to_vec()];
    assert!(r.check_outputs(&g, &good).is_ok());
    let mut bad = good.clone();
    bad[1][1] ^= 1;
    assert_eq!(
        refused(r.check_outputs(&g, &bad)),
        "output mask differs from the recording in 1 of 2 bytes; re-record"
    );
    bad[0] = vec![0xff; 8];
    assert_eq!(
        refused(r.check_outputs(&g, &bad)),
        "output score differs from the recording in 8 of 8 bytes; re-record"
    );
}

#[test]
fn differing_bytes_are_counted() {
    assert_eq!(count_differing(&[1, 2, 3], &[1, 0, 0]), 2);
    assert_eq!(count_differing(&[1, 2, 3], &[1, 2, 3]), 0);
    assert_eq!(count_differing(&[1, 2, 3], &[0]), 1);
    assert_eq!(count_differing(&[], &[]), 0);
}

#[test]
fn another_driver_must_reproduce_the_outputs() {
    let g = golden();
    let good = vec![g[8..16].to_vec(), g[16..18].to_vec()];
    let (orders, verifying) = unverified().verify(g.clone());
    assert_eq!(orders.len(), 4);
    assert_eq!(verifying.golden_bytes(), &g);
    assert_eq!(verifying.replay().inputs.len(), 1);
    assert!(verifying.finish(&good).is_ok());

    let mut bad = good;
    bad[0][3] ^= 0x80;
    assert_eq!(
        refused(unverified().verify(g.clone()).1.finish(&bad)),
        "output score differs from the recording in 1 of 8 bytes; re-record"
    );
    assert_eq!(
        refused(unverified().verify(g[..4].to_vec()).1.finish(&Vec::new())),
        "golden.bin: too short for frame"
    );
}

#[test]
fn the_recorded_driver_needs_no_check() {
    assert_eq!(ready(SAMPLE).launches.len(), 2);
}
