//! What the lines of `replay.txt` mean, word by word, and how they add up to
//! a plan.

use vstd::prelude::*;

use crate::number::{decimal, lemma_value_grows, number, unsigned};
use crate::plan::{
    all_with_golden, arg_line, arg_lines, completed, field_text, hex_byte, hex_bytes,
    largest_alloc_id, largest_id, law_a_plan_is_complete, outcome, parsed, read_record,
    read_records, record_line, size_field, triple_field, u32_field, with_golden, Arg, ArgView,
    DraftView, LaunchHeadView, LaunchPlan, LaunchView, Plan, PlanView, Port, PortView, Record,
    RecordView, Region,
};
use crate::text::{after_bytes, lines, trim, words};

verus! {

// ---------------------------------------------------------------- views

/// Nothing of a port is lost in its view.
pub proof fn law_ports_are_seen_whole(p: Port)
    ensures
        p@.name == p.name@,
        p@.alloc == p.alloc,
        p@.off == p.off,
        p@.bytes == p.bytes,
        p@.element_type == p.element_type@,
        p@.golden == p.golden,
{
}

/// Nothing of an argument is lost in its view.
pub proof fn law_arguments_are_seen_whole(a: Arg)
    ensures
        match a {
            Arg::Ptr { alloc, off } => a@ == (ArgView::Ptr { alloc, off }),
            Arg::Value(bytes) => a@ == ArgView::Value(bytes@),
            Arg::Local(size) => a@ == ArgView::Local(size),
            Arg::Null => a@ == ArgView::Null,
        },
{
}

/// Nothing of a launch is lost in its view.
pub proof fn law_launches_are_seen_whole(l: LaunchPlan)
    ensures
        l@.program == l.program,
        l@.name == l.name@,
        l@.dim == l.dim,
        l@.global == l.global@,
        l@.local == l.local@,
        l@.offset == l.offset@,
        l@.args.len() == l.args@.len(),
        forall|i: int| 0 <= i < l.args@.len() ==> #[trigger] l@.args[i] == l.args@[i]@,
{
}

/// Nothing of a plan is lost in its view.
pub proof fn law_plans_are_seen_whole(p: Plan)
    ensures
        p@.device_name == p.device_name@,
        p@.driver_version == p.driver_version@,
        p@.device_id == p.device_id,
        p@.inputs.len() == p.inputs@.len(),
        forall|i: int| 0 <= i < p.inputs@.len() ==> #[trigger] p@.inputs[i] == p.inputs@[i]@,
        p@.outputs.len() == p.outputs@.len(),
        forall|i: int| 0 <= i < p.outputs@.len() ==> #[trigger] p@.outputs[i] == p.outputs@[i]@,
        p@.weights == p.weights@,
        p@.scratch == p.scratch@,
        p@.host == p.host@,
        p@.programs == p.programs@,
        p@.launches.len() == p.launches@.len(),
        forall|i: int| 0 <= i < p.launches@.len() ==> #[trigger] p@.launches[i] == p.launches@[i]@,
{
}

/// Nothing of a record is lost in its view.
pub proof fn law_records_are_seen_whole(r: Record)
    ensures
        match r {
            Record::Blank => r@ == RecordView::Blank,
            Record::Format(t) => r@ == RecordView::Format(t@),
            Record::DeviceName(t) => r@ == RecordView::DeviceName(t@),
            Record::DriverVersion(t) => r@ == RecordView::DriverVersion(t@),
            Record::DeviceId(n) => r@ == RecordView::DeviceId(n),
            Record::Input(p) => r@ == RecordView::Input(p@),
            Record::Output(p) => r@ == RecordView::Output(p@),
            Record::Golden { input, name, off, bytes } => r@ == (RecordView::Golden {
                input,
                name: name@,
                off,
                bytes,
            }),
            Record::Weights(g) => r@ == RecordView::Weights(g),
            Record::Scratch(g) => r@ == RecordView::Scratch(g),
            Record::Host(g) => r@ == RecordView::Host(g),
            Record::Program(p) => r@ == RecordView::Program(p),
            Record::Kernel { id, program, name } => r@ == (RecordView::Kernel {
                id,
                program,
                name: name@,
            }),
            Record::Launch(h) => r@ == RecordView::Launch(
                LaunchHeadView {
                    kernel: h.kernel,
                    dim: h.dim,
                    global: h.global@,
                    local: h.local@,
                    offset: h.offset@,
                    nargs: h.nargs,
                },
            ),
        },
{
}

/// A result is seen as what it is: what came of it, or its message.
pub proof fn law_results_are_seen_whole<T: View>(r: Result<T, String>)
    ensures
        match r {
            Ok(t) => outcome(r) == Ok::<T::V, Seq<char>>(t@),
            Err(m) => outcome(r) == Err::<T::V, Seq<char>>(m@),
        },
{
}

// ---------------------------------------------------------------- fields

/// A field is a number exactly where it is there and decimal digits write one
/// that its type can hold.
pub proof fn law_fields_are_decimal_numbers(field: Option<&str>)
    ensures
        field is None ==> size_field(field_text(field)) is None && u32_field(
            field_text(field),
        ) is None,
        field matches Some(f) ==> {
            &&& match number(f@, 10, usize::MAX as int) {
                Some(n) => size_field(field_text(field)) matches Some(v) && v == n,
                None => size_field(field_text(field)) is None,
            }
            &&& match number(f@, 10, u32::MAX as int) {
                Some(n) => u32_field(field_text(field)) matches Some(v) && v == n,
                None => u32_field(field_text(field)) is None,
            }
        },
{
    if let Some(f) = field {
        lemma_number_range(f@, 10, usize::MAX as int);
        lemma_number_range(f@, 10, u32::MAX as int);
    }
}

proof fn lemma_number_range(s: Seq<char>, radix: int, max: int)
    requires
        2 <= radix <= 36,
    ensures
        number(s, radix, max) matches Some(n) ==> 0 <= n <= max,
{
    let d = unsigned(s);
    if number(s, radix, max) is Some {
        lemma_value_grows(d, d.len() as int, radix);
        assert(d.take(d.len() as int) =~= d);
    }
}

/// Three fields in a row are three numbers, or none.
pub proof fn law_three_fields_in_a_row(w: Seq<Seq<char>>, i: int)
    requires
        0 <= i,
    ensures
        ({
            let n = |k: int| number(w[i + k], 10, usize::MAX as int);
            if i + 2 < w.len() && n(0) is Some && n(1) is Some && n(2) is Some {
                triple_field(w, i) == Some(
                    seq![n(0)->0 as usize, n(1)->0 as usize, n(2)->0 as usize],
                )
            } else {
                triple_field(w, i) is None
            }
        }),
{
}

// ---------------------------------------------------------------- records

proof fn lemma_tags()
    ensures
        "FORMAT"@.len() == 6,
        "FORMAT"@[0] == 'F',
        "DEVICE_NAME"@.len() == 11,
        "DEVICE_NAME"@[0] == 'D',
        "DRIVER_VERSION"@.len() == 14,
        "DRIVER_VERSION"@[0] == 'D',
        "DEVICE_ID"@.len() == 9,
        "DEVICE_ID"@[0] == 'D',
        "INPUT"@.len() == 5,
        "INPUT"@[0] == 'I',
        "OUTPUT"@.len() == 6,
        "OUTPUT"@[0] == 'O',
        "GOLDEN"@.len() == 6,
        "GOLDEN"@[0] == 'G',
        "W"@.len() == 1,
        "W"@[0] == 'W',
        "S"@.len() == 1,
        "S"@[0] == 'S',
        "H"@.len() == 1,
        "H"@[0] == 'H',
        "PROG"@.len() == 4,
        "PROG"@[0] == 'P',
        "KERN"@.len() == 4,
        "KERN"@[0] == 'K',
        "NDR"@.len() == 3,
        "NDR"@[0] == 'N',
        "DEVICE_NAME"@[1] == 'E',
        "DRIVER_VERSION"@[1] == 'R',
{
    reveal_strlit("FORMAT");
    reveal_strlit("DEVICE_NAME");
    reveal_strlit("DRIVER_VERSION");
    reveal_strlit("DEVICE_ID");
    reveal_strlit("INPUT");
    reveal_strlit("OUTPUT");
    reveal_strlit("GOLDEN");
    reveal_strlit("W");
    reveal_strlit("S");
    reveal_strlit("H");
    reveal_strlit("PROG");
    reveal_strlit("KERN");
    reveal_strlit("NDR");
}

/// A line without words is blank.
pub proof fn law_a_line_without_words_is_blank(line: Seq<char>)
    ensures
        words(line).len() == 0 ==> record_line(line) == Ok::<RecordView, Seq<char>>(
            RecordView::Blank,
        ),
{
}

/// The format, the device's name and the driver's version are the text behind
/// their tag.
pub proof fn law_text_records(line: Seq<char>)
    requires
        words(line).len() > 0,
    ensures
        words(line)[0] == "FORMAT"@ ==> record_line(line) == Ok::<RecordView, Seq<char>>(
            RecordView::Format(trim(after_bytes(line, 6))),
        ),
        words(line)[0] == "DEVICE_NAME"@ ==> record_line(line) == Ok::<RecordView, Seq<char>>(
            RecordView::DeviceName(trim(after_bytes(line, 11))),
        ),
        words(line)[0] == "DRIVER_VERSION"@ ==> record_line(line) == Ok::<RecordView, Seq<char>>(
            RecordView::DriverVersion(trim(after_bytes(line, 14))),
        ),
{
    lemma_tags();
}

/// The device's number is the first word behind its tag.
pub proof fn law_device_id_records(line: Seq<char>)
    requires
        words(line).len() > 0,
        words(line)[0] == "DEVICE_ID"@,
    ensures
        record_line(line) == if words(line).len() > 1 && number(
            words(line)[1],
            10,
            u32::MAX as int,
        ) is Some {
            Ok(RecordView::DeviceId(number(words(line)[1], 10, u32::MAX as int)->0 as u32))
        } else {
            Err("bad line: "@ + line)
        },
{
    lemma_tags();
}

/// A port is a name, an allocation, an offset and a size; an output may name
/// its element type behind them, and anything else is bytes.
pub proof fn law_port_records(line: Seq<char>)
    requires
        words(line).len() > 0,
    ensures
        ({
            let w = words(line);
            let fine = |i: int| i < w.len() && number(w[i], 10, usize::MAX as int) is Some;
            let at = |i: int| number(w[i], 10, usize::MAX as int)->0 as usize;
            let made = |element_type: Seq<char>|
                PortView {
                    name: w[1],
                    alloc: at(2),
                    off: at(3),
                    bytes: at(4),
                    element_type,
                    golden: usize::MAX,
                };
            let whole = fine(2) && fine(3) && fine(4);
            &&& w[0] == "INPUT"@ ==> record_line(line) == if whole {
                Ok(RecordView::Input(made("u8"@)))
            } else {
                Err("bad line: "@ + line)
            }
            &&& w[0] == "OUTPUT"@ ==> record_line(line) == if whole {
                Ok(
                    RecordView::Output(
                        made(
                            if w.len() > 5 {
                                w[5]
                            } else {
                                "u8"@
                            },
                        ),
                    ),
                )
            } else {
                Err("bad line: "@ + line)
            }
        }),
{
    lemma_tags();
}

/// Golden data is an input's or an output's, by name, with its offset and its
/// size.
pub proof fn law_golden_records(line: Seq<char>)
    requires
        words(line).len() > 0,
        words(line)[0] == "GOLDEN"@,
    ensures
        ({
            let w = words(line);
            let fine = |i: int| i < w.len() && number(w[i], 10, usize::MAX as int) is Some;
            let at = |i: int| number(w[i], 10, usize::MAX as int)->0 as usize;
            record_line(line) == if fine(3) && fine(4) && (w[1] == "INPUT"@ || w[1] == "OUTPUT"@) {
                Ok(
                    RecordView::Golden {
                        input: w[1] == "INPUT"@,
                        name: w[2],
                        off: at(3),
                        bytes: at(4),
                    },
                )
            } else {
                Err("bad line: "@ + line)
            }
        }),
{
    lemma_tags();
}

/// Constants have an identifier, an offset in `weights.bin` and a size;
/// scratch and host memory an identifier and a size.
pub proof fn law_memory_records(line: Seq<char>)
    requires
        words(line).len() > 0,
    ensures
        ({
            let w = words(line);
            let fine = |i: int| i < w.len() && number(w[i], 10, usize::MAX as int) is Some;
            let at = |i: int| number(w[i], 10, usize::MAX as int)->0 as usize;
            let empty = Region { id: at(1), off: 0, size: at(2) };
            &&& w[0] == "W"@ ==> record_line(line) == if fine(1) && fine(2) && fine(3) {
                Ok(RecordView::Weights(Region { id: at(1), off: at(2), size: at(3) }))
            } else {
                Err("bad line: "@ + line)
            }
            &&& w[0] == "S"@ ==> record_line(line) == if fine(1) && fine(2) {
                Ok(RecordView::Scratch(empty))
            } else {
                Err("bad line: "@ + line)
            }
            &&& w[0] == "H"@ ==> record_line(line) == if fine(1) && fine(2) {
                Ok(RecordView::Host(empty))
            } else {
                Err("bad line: "@ + line)
            }
        }),
{
    lemma_tags();
}

/// A program is its identifier; a kernel is its identifier, its program and
/// its name, the whole word.
pub proof fn law_program_and_kernel_records(line: Seq<char>)
    requires
        words(line).len() > 0,
    ensures
        ({
            let w = words(line);
            let fine = |i: int| i < w.len() && number(w[i], 10, usize::MAX as int) is Some;
            let at = |i: int| number(w[i], 10, usize::MAX as int)->0 as usize;
            &&& w[0] == "PROG"@ ==> record_line(line) == if fine(1) {
                Ok(RecordView::Program(at(1)))
            } else {
                Err("bad line: "@ + line)
            }
            &&& w[0] == "KERN"@ ==> record_line(line) == if fine(1) && fine(2) && w.len() > 3 {
                Ok(RecordView::Kernel { id: at(1), program: at(2), name: w[3] })
            } else {
                Err("bad line: "@ + line)
            }
        }),
{
    lemma_tags();
}

/// A launch is a kernel, a dimension, three global sizes, three local sizes,
/// three offsets and a count of arguments, in this order.
pub proof fn law_launch_records(line: Seq<char>)
    requires
        words(line).len() > 0,
        words(line)[0] == "NDR"@,
    ensures
        ({
            let w = words(line);
            let fine = |i: int| i < w.len() && number(w[i], 10, usize::MAX as int) is Some;
            let at = |i: int| number(w[i], 10, usize::MAX as int)->0 as usize;
            let dim = number(w[2], 10, u32::MAX as int);
            record_line(line) == if w.len() > 12 && fine(1) && dim is Some && (forall|i: int|
                3 <= i <= 12 ==> number(#[trigger] w[i], 10, usize::MAX as int) is Some) {
                Ok(
                    RecordView::Launch(
                        LaunchHeadView {
                            kernel: at(1),
                            dim: dim->0 as u32,
                            global: seq![at(3), at(4), at(5)],
                            local: seq![at(6), at(7), at(8)],
                            offset: seq![at(9), at(10), at(11)],
                            nargs: at(12),
                        },
                    ),
                )
            } else {
                Err("bad line: "@ + line)
            }
        }),
{
    lemma_tags();
    let w = words(line);
    if w.len() > 12 && forall|i: int|
        3 <= i <= 12 ==> number(#[trigger] w[i], 10, usize::MAX as int) is Some {
        assert(number(w[3], 10, usize::MAX as int) is Some);
        assert(number(w[4], 10, usize::MAX as int) is Some);
        assert(number(w[5], 10, usize::MAX as int) is Some);
        assert(number(w[6], 10, usize::MAX as int) is Some);
        assert(number(w[7], 10, usize::MAX as int) is Some);
        assert(number(w[8], 10, usize::MAX as int) is Some);
        assert(number(w[9], 10, usize::MAX as int) is Some);
        assert(number(w[10], 10, usize::MAX as int) is Some);
        assert(number(w[11], 10, usize::MAX as int) is Some);
        assert(number(w[12], 10, usize::MAX as int) is Some);
    }
}

/// A record of any other kind is refused by its name.
pub proof fn law_other_records_are_refused(line: Seq<char>)
    requires
        words(line).len() > 0,
        words(line)[0] != "FORMAT"@,
        words(line)[0] != "DEVICE_NAME"@,
        words(line)[0] != "DRIVER_VERSION"@,
        words(line)[0] != "DEVICE_ID"@,
        words(line)[0] != "INPUT"@,
        words(line)[0] != "OUTPUT"@,
        words(line)[0] != "GOLDEN"@,
        words(line)[0] != "W"@,
        words(line)[0] != "S"@,
        words(line)[0] != "H"@,
        words(line)[0] != "PROG"@,
        words(line)[0] != "KERN"@,
        words(line)[0] != "NDR"@,
    ensures
        record_line(line) == Err::<RecordView, Seq<char>>("unknown record "@ + words(line)[0]),
{
}

// ---------------------------------------------------------------- arguments

proof fn lemma_argument_tags()
    ensures
        "U"@[0] == 'U' && "U"@.len() == 1,
        "L"@[0] == 'L' && "L"@.len() == 1,
        "N"@[0] == 'N' && "N"@.len() == 1,
        "V"@[0] == 'V' && "V"@.len() == 1,
{
    reveal_strlit("U");
    reveal_strlit("L");
    reveal_strlit("N");
    reveal_strlit("V");
}

/// A pointer is an allocation and an offset; local memory is a size; a null
/// pointer is nothing more; a line of another kind is refused.
pub proof fn law_argument_lines(line: Seq<char>)
    ensures
        ({
            let w = words(line);
            let fine = |i: int| i < w.len() && number(w[i], 10, usize::MAX as int) is Some;
            let at = |i: int| number(w[i], 10, usize::MAX as int)->0 as usize;
            let kind = |tag: Seq<char>| w.len() > 0 && w[0] == tag;
            &&& kind("U"@) ==> arg_line(line) == if fine(1) && fine(2) {
                Ok(ArgView::Ptr { alloc: at(1), off: at(2) })
            } else {
                Err("bad line: "@ + line)
            }
            &&& kind("L"@) ==> arg_line(line) == if fine(1) {
                Ok(ArgView::Local(at(1)))
            } else {
                Err("bad line: "@ + line)
            }
            &&& kind("N"@) ==> arg_line(line) == Ok::<ArgView, Seq<char>>(ArgView::Null)
            &&& !kind("U"@) && !kind("L"@) && !kind("N"@) && !kind("V"@) ==> arg_line(line)
                == Err::<ArgView, Seq<char>>("unsupported arg: "@ + line)
        }),
{
    lemma_argument_tags();
}

/// A by-value argument is a count, and behind it as many bytes in base
/// sixteen, each of them a word; its bytes are these, all of them, in order.
pub proof fn law_value_lines(line: Seq<char>)
    requires
        words(line).len() > 0,
        words(line)[0] == "V"@,
    ensures
        ({
            let w = words(line);
            let fine = |i: int| i < w.len() && number(w[i], 10, usize::MAX as int) is Some;
            let at = |i: int| number(w[i], 10, usize::MAX as int)->0 as usize;
            let n = at(1);
            let all = forall|i: int|
                2 <= i < w.len() ==> number(#[trigger] w[i], 16, 0xff) is Some;
            &&& !fine(1) ==> arg_line(line) == Err::<ArgView, Seq<char>>("bad line: "@ + line)
            &&& fine(1) && !all ==> arg_line(line) == Err::<ArgView, Seq<char>>(
                "bad arg: "@ + line,
            )
            &&& fine(1) && all && w.len() - 2 != n ==> arg_line(line) == Err::<
                ArgView,
                Seq<char>,
            >(
                "value arg has "@ + decimal(w.len() - 2) + " of "@ + decimal(n as int)
                    + " bytes: "@ + line,
            )
            &&& fine(1) && all && w.len() - 2 == n ==> {
                &&& arg_line(line) matches Ok(ArgView::Value(bytes))
                &&& bytes.len() == n
                &&& forall|i: int|
                    0 <= i < n ==> number(w[i + 2], 16, 0xff) == Some(#[trigger] bytes[i] as int)
            }
        }),
{
    lemma_argument_tags();
    let w = words(line);
    let ws = w.skip(2);
    if w.len() > 1 && number(w[1], 10, usize::MAX as int) is Some {
        lemma_number_range(w[1], 10, usize::MAX as int);
        if forall|i: int| 2 <= i < w.len() ==> number(#[trigger] w[i], 16, 0xff) is Some {
            assert forall|i: int| 0 <= i < ws.len() implies hex_byte(#[trigger] ws[i]) is Some by {
                assert(ws[i] == w[i + 2]);
                assert(number(w[i + 2], 16, 0xff) is Some);
            }
            let bytes = hex_bytes(ws)->0;
            assert forall|i: int| 0 <= i < bytes.len() implies number(w[i + 2], 16, 0xff)
                == Some(#[trigger] bytes[i] as int) by {
                assert(ws[i] == w[i + 2]);
                assert(hex_byte(ws[i]) is Some);
                lemma_number_range(w[i + 2], 16, 0xff);
            }
        } else {
            let i = choose|i: int| 2 <= i < w.len() && number(#[trigger] w[i], 16, 0xff) is None;
            assert(ws[i - 2] == w[i]);
            assert(hex_byte(ws[i - 2]) is None);
        }
    }
}

// ---------------------------------------------------------------- the whole text

/// Without a line nothing is said.
pub proof fn law_no_lines_say_nothing(d: DraftView)
    ensures
        read_records(Seq::empty(), d) == Ok::<DraftView, Seq<char>>(d),
{
}

/// A record, a launch apart, changes the one thing that it is about: a text or
/// a number is replaced, a list gets one item more at its end, and a kernel or
/// a port's golden data is known by its name from then on. Then comes the next
/// line.
#[verifier::spinoff_prover]
#[verifier::rlimit(40)]
pub proof fn law_what_a_record_says(line: Seq<char>, rest: Seq<Seq<char>>, d: DraftView)
    requires
        record_line(line) is Ok,
        !(record_line(line)->Ok_0 is Launch),
    ensures
        ({
            let p = d.plan;
            let next = match record_line(line)->Ok_0 {
                RecordView::Format(t) => DraftView { format: Some(t), ..d },
                RecordView::DeviceName(t) => DraftView {
                    plan: PlanView { device_name: t, ..p },
                    ..d
                },
                RecordView::DriverVersion(t) => DraftView {
                    plan: PlanView { driver_version: t, ..p },
                    ..d
                },
                RecordView::DeviceId(n) => DraftView {
                    plan: PlanView { device_id: Some(n), ..p },
                    ..d
                },
                RecordView::Input(port) => DraftView {
                    plan: PlanView { inputs: p.inputs.push(port), ..p },
                    ..d
                },
                RecordView::Output(port) => DraftView {
                    plan: PlanView { outputs: p.outputs.push(port), ..p },
                    ..d
                },
                RecordView::Golden { input, name, off, bytes } => DraftView {
                    golden_inputs: if input {
                        d.golden_inputs.insert(name, (off, bytes))
                    } else {
                        d.golden_inputs
                    },
                    golden_outputs: if input {
                        d.golden_outputs
                    } else {
                        d.golden_outputs.insert(name, (off, bytes))
                    },
                    ..d
                },
                RecordView::Weights(g) => DraftView {
                    plan: PlanView { weights: p.weights.push(g), ..p },
                    ..d
                },
                RecordView::Scratch(g) => DraftView {
                    plan: PlanView { scratch: p.scratch.push(g), ..p },
                    ..d
                },
                RecordView::Host(g) => DraftView {
                    plan: PlanView { host: p.host.push(g), ..p },
                    ..d
                },
                RecordView::Program(n) => DraftView {
                    plan: PlanView { programs: p.programs.push(n), ..p },
                    ..d
                },
                RecordView::Kernel { id, program, name } => DraftView {
                    kernels: d.kernels.insert(id, (program, name)),
                    ..d
                },
                _ => d,
            };
            read_records(seq![line] + rest, d) == read_records(rest, next)
        }),
{
    let all = seq![line] + rest;
    assert(all[0] == line);
    assert(all.skip(1) =~= rest);
}

/// A line that is no record ends the reading, with its message.
#[verifier::spinoff_prover]
#[verifier::rlimit(40)]
pub proof fn law_a_bad_record_ends_the_reading(line: Seq<char>, rest: Seq<Seq<char>>, d: DraftView)
    requires
        record_line(line) is Err,
    ensures
        read_records(seq![line] + rest, d) == Err::<DraftView, Seq<char>>(
            record_line(line)->Err_0,
        ),
{
    assert((seq![line] + rest)[0] == line);
}

proof fn lemma_args(rows: Seq<Seq<char>>, n: nat)
    requires
        n <= rows.len(),
        forall|i: int| 0 <= i < n ==> arg_line(#[trigger] rows[i]) is Ok,
    ensures
        arg_lines(rows, n) == Ok::<Seq<ArgView>, Seq<char>>(
            Seq::new(n, |i: int| arg_line(rows[i])->Ok_0),
        ),
    decreases n,
{
    let made = Seq::new(n, |i: int| arg_line(rows[i])->Ok_0);
    if n > 0 {
        lemma_args(rows, (n - 1) as nat);
        assert(arg_line(rows[n - 1]) is Ok);
        assert(made =~= Seq::new((n - 1) as nat, |i: int| arg_line(rows[i])->Ok_0).push(
            arg_line(rows[n - 1])->Ok_0,
        ));
    } else {
        assert(made =~= seq![]);
    }
}

proof fn lemma_args_fail(rows: Seq<Seq<char>>, k: nat, n: nat)
    requires
        k < n,
        k <= rows.len(),
        forall|i: int| 0 <= i < k ==> arg_line(#[trigger] rows[i]) is Ok,
        k == rows.len() || arg_line(rows[k as int]) is Err,
    ensures
        arg_lines(rows, n) == Err::<Seq<ArgView>, Seq<char>>(
            if k == rows.len() {
                "launch truncated"@
            } else {
                arg_line(rows[k as int])->Err_0
            },
        ),
    decreases n,
{
    if n == k + 1 {
        lemma_args(rows, k);
    } else {
        lemma_args_fail(rows, k, (n - 1) as nat);
    }
}

/// A launch takes the program and the name of its kernel, its own sizes, and
/// one argument from each of the lines behind it, as many as it says; then
/// comes the line behind those.
#[verifier::spinoff_prover]
#[verifier::rlimit(40)]
pub proof fn law_what_a_launch_says(
    line: Seq<char>,
    args: Seq<Seq<char>>,
    rest: Seq<Seq<char>>,
    d: DraftView,
    head: LaunchHeadView,
)
    requires
        record_line(line) == Ok::<RecordView, Seq<char>>(RecordView::Launch(head)),
        d.kernels.contains_key(head.kernel),
        args.len() == head.nargs,
        forall|i: int| 0 <= i < args.len() ==> arg_line(#[trigger] args[i]) is Ok,
    ensures
        read_records(seq![line] + args + rest, d) == read_records(
            rest,
            DraftView {
                plan: PlanView {
                    launches: d.plan.launches.push(
                        LaunchView {
                            program: d.kernels[head.kernel].0,
                            name: d.kernels[head.kernel].1,
                            dim: head.dim,
                            global: head.global,
                            local: head.local,
                            offset: head.offset,
                            args: Seq::new(args.len(), |i: int| arg_line(args[i])->Ok_0),
                        },
                    ),
                    ..d.plan
                },
                ..d
            },
        ),
{
    let all = seq![line] + args + rest;
    let rows = args + rest;
    assert(all[0] == line);
    assert(all.drop_first() =~= rows);
    assert forall|i: int| 0 <= i < args.len() implies arg_line(#[trigger] rows[i]) is Ok by {
        assert(rows[i] == args[i]);
    }
    lemma_args(rows, args.len());
    assert(Seq::new(args.len(), |i: int| arg_line(rows[i])->Ok_0) =~= Seq::new(
        args.len(),
        |i: int| arg_line(args[i])->Ok_0,
    ));
    assert(all.skip(1 + head.nargs as int) =~= rest);
    assert(read_record(all, d) is Ok);
    assert(read_record(all, d)->Ok_0.1 == 1 + head.nargs);
}

/// A launch of a kernel that no record before it has named is refused. So is
/// one whose arguments cannot be read, with what is wrong with the first of
/// them, and one with fewer lines behind it than it has arguments.
#[verifier::spinoff_prover]
#[verifier::rlimit(40)]
pub proof fn law_a_launch_that_cannot_be_read(
    line: Seq<char>,
    rows: Seq<Seq<char>>,
    d: DraftView,
    head: LaunchHeadView,
    k: int,
)
    requires
        record_line(line) == Ok::<RecordView, Seq<char>>(RecordView::Launch(head)),
    ensures
        !d.kernels.contains_key(head.kernel) ==> read_records(seq![line] + rows, d) == Err::<
            DraftView,
            Seq<char>,
        >("launch of unknown kernel "@ + decimal(head.kernel as int)),
        d.kernels.contains_key(head.kernel) && 0 <= k < head.nargs && k <= rows.len() && (forall|
            i: int,
        |
            0 <= i < k ==> arg_line(#[trigger] rows[i]) is Ok) && (k == rows.len() || arg_line(
            rows[k],
        ) is Err) ==> read_records(seq![line] + rows, d) == Err::<DraftView, Seq<char>>(
            if k == rows.len() {
                "launch truncated"@
            } else {
                arg_line(rows[k])->Err_0
            },
        ),
{
    let all = seq![line] + rows;
    assert(all[0] == line);
    assert(all.drop_first() =~= rows);
    if d.kernels.contains_key(head.kernel) && 0 <= k < head.nargs && k <= rows.len() && (forall|
        i: int,
    |
        0 <= i < k ==> arg_line(#[trigger] rows[i]) is Ok) && (k == rows.len() || arg_line(
        rows[k],
    ) is Err) {
        lemma_args_fail(rows, k as nat, head.nargs as nat);
    }
}

/// A text is read from its first line to its last, with nothing known before.
pub proof fn law_a_text_is_read_from_nothing(text: Seq<char>)
    ensures
        ({
            let nothing = DraftView {
                plan: PlanView {
                    device_name: Seq::empty(),
                    driver_version: Seq::empty(),
                    device_id: None,
                    inputs: Seq::empty(),
                    outputs: Seq::empty(),
                    weights: Seq::empty(),
                    scratch: Seq::empty(),
                    host: Seq::empty(),
                    programs: Seq::empty(),
                    launches: Seq::empty(),
                },
                format: None,
                kernels: Map::empty(),
                golden_inputs: Map::empty(),
                golden_outputs: Map::empty(),
            };
            match read_records(lines(text), nothing) {
                Err(m) => parsed(text) == Err::<PlanView, Seq<char>>(m),
                Ok(d) => parsed(text) == completed(d),
            }
        }),
{
}

/// A text of another format is refused, and so is one without a device,
/// inputs, outputs or launches.
pub proof fn law_incomplete_plans_are_refused(d: DraftView)
    ensures
        d.format is None ==> completed(d) == Err::<PlanView, Seq<char>>(
            "not an "@ + "ovreplay 1"@ + " recording (FORMAT "@ + Seq::empty() + ")"@,
        ),
        d.format matches Some(f) ==> f != "ovreplay 1"@ ==> completed(d) == Err::<
            PlanView,
            Seq<char>,
        >("not an "@ + "ovreplay 1"@ + " recording (FORMAT "@ + f + ")"@),
        d.format == Some("ovreplay 1"@) && (d.plan.device_name.len() == 0 || d.plan.inputs.len()
            == 0 || d.plan.outputs.len() == 0 || d.plan.launches.len() == 0) ==> completed(d)
            == Err::<PlanView, Seq<char>>(
            "recording is missing its device, inputs, outputs or launches"@,
        ),
{
}

proof fn lemma_golden_fails(
    ports: Seq<PortView>,
    golden: Map<Seq<char>, (usize, usize)>,
    k: int,
    n: int,
)
    requires
        0 <= k < n <= ports.len(),
        forall|i: int|
            0 <= i < k ==> golden.contains_key((#[trigger] ports[i]).name)
                && golden[ports[i].name].1 == ports[i].bytes,
        !golden.contains_key(ports[k].name) || golden[ports[k].name].1 != ports[k].bytes,
    ensures
        all_with_golden(ports.take(n), golden) is Err,
        all_with_golden(ports.take(n), golden)->Err_0 == with_golden(ports[k], golden)->Err_0,
    decreases n,
{
    let row = ports.take(n);
    assert(row.drop_last() =~= ports.take(n - 1));
    if k < n - 1 {
        lemma_golden_fails(ports, golden, k, n - 1);
    } else {
        lemma_golden_holds(ports, golden, k);
    }
}

proof fn lemma_golden_holds(ports: Seq<PortView>, golden: Map<Seq<char>, (usize, usize)>, k: int)
    requires
        0 <= k <= ports.len(),
        forall|i: int|
            0 <= i < k ==> golden.contains_key((#[trigger] ports[i]).name)
                && golden[ports[i].name].1 == ports[i].bytes,
    ensures
        all_with_golden(ports.take(k), golden) is Ok,
    decreases k,
{
    if k > 0 {
        lemma_golden_holds(ports, golden, k - 1);
        assert(ports.take(k).drop_last() =~= ports.take(k - 1));
        assert(ports.take(k).last() == ports[k - 1]);
    }
}

/// A plan otherwise complete is refused for the first input that has no golden
/// data, or golden data of another length, whatever is known of the outputs; the
/// message says which.
pub proof fn law_the_first_input_without_golden_data(d: DraftView, k: int)
    requires
        d.format == Some("ovreplay 1"@),
        d.plan.device_name.len() > 0,
        d.plan.inputs.len() > 0,
        d.plan.outputs.len() > 0,
        d.plan.launches.len() > 0,
        0 <= k < d.plan.inputs.len(),
        forall|i: int|
            0 <= i < k ==> d.golden_inputs.contains_key((#[trigger] d.plan.inputs[i]).name)
                && d.golden_inputs[d.plan.inputs[i].name].1 == d.plan.inputs[i].bytes,
        !d.golden_inputs.contains_key(d.plan.inputs[k].name)
            || d.golden_inputs[d.plan.inputs[k].name].1 != d.plan.inputs[k].bytes,
    ensures
        ({
            let port = d.plan.inputs[k];
            completed(d) == Err::<PlanView, Seq<char>>(
                if !d.golden_inputs.contains_key(port.name) {
                    "no golden data for "@ + port.name
                } else {
                    "golden data for "@ + port.name + " is "@ + decimal(
                        d.golden_inputs[port.name].1 as int,
                    ) + " bytes, port is "@ + decimal(port.bytes as int)
                },
            )
        }),
{
    let ports = d.plan.inputs;
    lemma_golden_fails(ports, d.golden_inputs, k, ports.len() as int);
    assert(ports.take(ports.len() as int) =~= ports);
}

/// Where every input has its golden data, a plan otherwise complete is refused
/// for the first output that has no golden data, or golden data of another
/// length.
pub proof fn law_the_first_output_without_golden_data(d: DraftView, k: int)
    requires
        d.format == Some("ovreplay 1"@),
        d.plan.device_name.len() > 0,
        d.plan.inputs.len() > 0,
        d.plan.outputs.len() > 0,
        d.plan.launches.len() > 0,
        forall|i: int|
            0 <= i < d.plan.inputs.len() ==> d.golden_inputs.contains_key(
                (#[trigger] d.plan.inputs[i]).name,
            ) && d.golden_inputs[d.plan.inputs[i].name].1 == d.plan.inputs[i].bytes,
        0 <= k < d.plan.outputs.len(),
        forall|i: int|
            0 <= i < k ==> d.golden_outputs.contains_key((#[trigger] d.plan.outputs[i]).name)
                && d.golden_outputs[d.plan.outputs[i].name].1 == d.plan.outputs[i].bytes,
        !d.golden_outputs.contains_key(d.plan.outputs[k].name)
            || d.golden_outputs[d.plan.outputs[k].name].1 != d.plan.outputs[k].bytes,
    ensures
        ({
            let port = d.plan.outputs[k];
            completed(d) == Err::<PlanView, Seq<char>>(
                if !d.golden_outputs.contains_key(port.name) {
                    "no golden data for "@ + port.name
                } else {
                    "golden data for "@ + port.name + " is "@ + decimal(
                        d.golden_outputs[port.name].1 as int,
                    ) + " bytes, port is "@ + decimal(port.bytes as int)
                },
            )
        }),
{
    let ports = d.plan.outputs;
    lemma_golden_fails(ports, d.golden_outputs, k, ports.len() as int);
    assert(ports.take(ports.len() as int) =~= ports);
    lemma_golden_holds(d.plan.inputs, d.golden_inputs, d.plan.inputs.len() as int);
    assert(d.plan.inputs.take(d.plan.inputs.len() as int) =~= d.plan.inputs);
}

/// A plan that is complete is accepted: where the format is the one that is
/// read, nothing is missing, and each port has golden data of its length. Its
/// ports are the recorded ones, in order, each with the place of its data, and
/// all else is as the records say.
pub proof fn law_complete_plans_are_accepted(d: DraftView)
    requires
        d.format == Some("ovreplay 1"@),
        d.plan.device_name.len() > 0,
        d.plan.inputs.len() > 0,
        d.plan.outputs.len() > 0,
        d.plan.launches.len() > 0,
        forall|i: int|
            0 <= i < d.plan.inputs.len() ==> d.golden_inputs.contains_key(
                (#[trigger] d.plan.inputs[i]).name,
            ) && d.golden_inputs[d.plan.inputs[i].name].1 == d.plan.inputs[i].bytes,
        forall|i: int|
            0 <= i < d.plan.outputs.len() ==> d.golden_outputs.contains_key(
                (#[trigger] d.plan.outputs[i]).name,
            ) && d.golden_outputs[d.plan.outputs[i].name].1 == d.plan.outputs[i].bytes,
    ensures
        completed(d) matches Ok(p) && {
            &&& p.device_name == d.plan.device_name
            &&& p.driver_version == d.plan.driver_version
            &&& p.device_id == d.plan.device_id
            &&& p.weights == d.plan.weights
            &&& p.scratch == d.plan.scratch
            &&& p.host == d.plan.host
            &&& p.programs == d.plan.programs
            &&& p.launches == d.plan.launches
            &&& p.inputs.len() == d.plan.inputs.len()
            &&& p.outputs.len() == d.plan.outputs.len()
            &&& forall|i: int|
                0 <= i < p.inputs.len() ==> #[trigger] p.inputs[i] == (PortView {
                    golden: d.golden_inputs[d.plan.inputs[i].name].0,
                    ..d.plan.inputs[i]
                })
            &&& forall|i: int|
                0 <= i < p.outputs.len() ==> #[trigger] p.outputs[i] == (PortView {
                    golden: d.golden_outputs[d.plan.outputs[i].name].0,
                    ..d.plan.outputs[i]
                })
        },
{
    lemma_golden_holds(d.plan.inputs, d.golden_inputs, d.plan.inputs.len() as int);
    assert(d.plan.inputs.take(d.plan.inputs.len() as int) =~= d.plan.inputs);
    lemma_golden_holds(d.plan.outputs, d.golden_outputs, d.plan.outputs.len() as int);
    assert(d.plan.outputs.take(d.plan.outputs.len() as int) =~= d.plan.outputs);
    law_a_plan_is_complete(d);
}

/// The largest identifier is that of an allocation in one of the three lists,
/// and no allocation has a larger one; without allocations it is 0.
pub proof fn law_the_largest_identifier_is_listed(p: PlanView)
    ensures
        forall|i: int|
            0 <= i < p.weights.len() ==> (#[trigger] p.weights[i]).id <= largest_alloc_id(p),
        forall|i: int|
            0 <= i < p.scratch.len() ==> (#[trigger] p.scratch[i]).id <= largest_alloc_id(p),
        forall|i: int| 0 <= i < p.host.len() ==> (#[trigger] p.host[i]).id <= largest_alloc_id(p),
        (largest_alloc_id(p) == 0 && p.weights.len() == 0 && p.scratch.len() == 0 && p.host.len()
            == 0) || (exists|i: int|
            0 <= i < p.weights.len() && (#[trigger] p.weights[i]).id == largest_alloc_id(p)) || (
        exists|i: int|
            0 <= i < p.scratch.len() && (#[trigger] p.scratch[i]).id == largest_alloc_id(p)) || (
        exists|i: int|
            0 <= i < p.host.len() && (#[trigger] p.host[i]).id == largest_alloc_id(p)),
{
    let all = p.weights + p.scratch + p.host;
    lemma_largest(all);
    let nw = p.weights.len();
    let ns = p.scratch.len();
    assert forall|i: int| 0 <= i < p.weights.len() implies (#[trigger] p.weights[i]).id
        <= largest_alloc_id(p) by {
        assert(all[i] == p.weights[i]);
    }
    assert forall|i: int| 0 <= i < p.scratch.len() implies (#[trigger] p.scratch[i]).id
        <= largest_alloc_id(p) by {
        assert(all[nw + i] == p.scratch[i]);
    }
    assert forall|i: int| 0 <= i < p.host.len() implies (#[trigger] p.host[i]).id
        <= largest_alloc_id(p) by {
        assert(all[nw + ns + i] == p.host[i]);
    }
    if all.len() > 0 {
        let i = choose|i: int| 0 <= i < all.len() && (#[trigger] all[i]).id == largest_id(all);
        if i < nw {
            assert(p.weights[i] == all[i]);
        } else if i < nw + ns {
            assert(p.scratch[i - nw] == all[i]);
        } else {
            assert(p.host[i - nw - ns] == all[i]);
        }
    }
}

proof fn lemma_largest(regions: Seq<Region>)
    ensures
        forall|i: int| 0 <= i < regions.len() ==> (#[trigger] regions[i]).id <= largest_id(regions),
        regions.len() > 0 ==> exists|i: int|
            0 <= i < regions.len() && (#[trigger] regions[i]).id == largest_id(regions),
        regions.len() == 0 ==> largest_id(regions) == 0,
    decreases regions.len(),
{
    if regions.len() > 0 {
        let front = regions.drop_last();
        lemma_largest(front);
        assert forall|i: int| 0 <= i < regions.len() implies (#[trigger] regions[i]).id
            <= largest_id(regions) by {
            if i < front.len() {
                assert(front[i] == regions[i]);
            }
        }
        if regions.last().id > largest_id(front) || front.len() == 0 {
            assert(regions[regions.len() - 1].id == largest_id(regions));
        } else {
            let i = choose|i: int|
                0 <= i < front.len() && (#[trigger] front[i]).id == largest_id(front);
            assert(regions[i] == front[i]);
        }
    }
}

} // verus!
