//! Parsing `replay.txt`, the text of a recording.
//!
//! One record per line, space-separated:
//!
//! ```text
//! FORMAT ovreplay 1
//! DEVICE_NAME <text> / DRIVER_VERSION <text> / DEVICE_ID <n>
//! INPUT <name> <alloc> <byte offset> <bytes>
//! OUTPUT <name> <alloc> <byte offset> <bytes> <element type>
//! GOLDEN INPUT|OUTPUT <name> <offset in golden.bin> <bytes>
//! W <alloc> <offset in weights.bin> <size>      a constant buffer
//! S <alloc> <size> <kind>                       scratch
//! H <alloc> <size>                              host memory (outputs)
//! PROG <program> <binary size>                  prog_<program>.bin
//! KERN <kernel> <program> <name>
//! NDR <kernel> <dim> <global x3> <local x3> <offset x3> <nargs>
//!   followed by nargs lines:
//!   " U <alloc> <offset>"   a USM pointer
//!   " V <n> <hex bytes>"    a by-value argument
//!   " L <n>"                n bytes of local memory
//!   " N"                    a null pointer
//! ```

use std::collections::HashMap;

use vstd::hash_map::StringHashMap;
use vstd::prelude::*;

use crate::number::{decimal, number, read_number, write_decimal};
use crate::text::{
    after_bytes, is_space, law_blank_text_has_no_words, lemma_after_ascii, lemma_views_push, lines,
    same, split_lines, split_whitespace, trim, trimmed_after, utf8_len, views, words,
};

verus! {

broadcast use {lemma_views_push, vstd::std_specs::hash::group_hash_axioms};

/// The format that this library reads.
pub const FORMAT: &'static str = "ovreplay 1";

// ---------------------------------------------------------------- the plan

/// A stretch of memory: allocation `id`, of `size` bytes. A constant one has
/// its contents at `off` in `weights.bin`.
#[derive(Clone, Copy, Debug, PartialEq, Eq)]
pub struct Region {
    pub id: usize,
    pub off: usize,
    pub size: usize,
}

/// A named input or output: `bytes` bytes, `off` bytes into allocation `alloc`.
pub struct Port {
    pub name: String,
    pub alloc: usize,
    pub off: usize,
    pub bytes: usize,
    pub element_type: String,
    /// Byte offset of this port's recorded contents in `golden.bin`.
    pub golden: usize,
}

/// A kernel argument.
pub enum Arg {
    Ptr { alloc: usize, off: usize },
    Value(Vec<u8>),
    Local(usize),
    Null,
}

/// One recorded kernel launch.
pub struct LaunchPlan {
    pub program: usize,
    pub name: String,
    pub dim: u32,
    pub global: [usize; 3],
    pub local: [usize; 3],
    pub offset: [usize; 3],
    pub args: Vec<Arg>,
}

/// All that `replay.txt` says.
pub struct Plan {
    pub device_name: String,
    pub driver_version: String,
    pub device_id: Option<u32>,
    pub inputs: Vec<Port>,
    pub outputs: Vec<Port>,
    pub weights: Vec<Region>,
    pub scratch: Vec<Region>,
    pub host: Vec<Region>,
    pub programs: Vec<usize>,
    pub launches: Vec<LaunchPlan>,
}

/// A `Port`, its texts taken as sequences of characters.
pub struct PortView {
    pub name: Seq<char>,
    pub alloc: usize,
    pub off: usize,
    pub bytes: usize,
    pub element_type: Seq<char>,
    pub golden: usize,
}

/// An `Arg`, its bytes taken as a sequence.
pub enum ArgView {
    Ptr { alloc: usize, off: usize },
    Value(Seq<u8>),
    Local(usize),
    Null,
}

/// A `LaunchPlan`, taken as sequences.
pub struct LaunchView {
    pub program: usize,
    pub name: Seq<char>,
    pub dim: u32,
    pub global: Seq<usize>,
    pub local: Seq<usize>,
    pub offset: Seq<usize>,
    pub args: Seq<ArgView>,
}

/// A `Plan`, taken as sequences.
pub struct PlanView {
    pub device_name: Seq<char>,
    pub driver_version: Seq<char>,
    pub device_id: Option<u32>,
    pub inputs: Seq<PortView>,
    pub outputs: Seq<PortView>,
    pub weights: Seq<Region>,
    pub scratch: Seq<Region>,
    pub host: Seq<Region>,
    pub programs: Seq<usize>,
    pub launches: Seq<LaunchView>,
}

impl View for Port {
    type V = PortView;

    open spec fn view(&self) -> PortView {
        PortView {
            name: self.name@,
            alloc: self.alloc,
            off: self.off,
            bytes: self.bytes,
            element_type: self.element_type@,
            golden: self.golden,
        }
    }
}

impl View for Arg {
    type V = ArgView;

    open spec fn view(&self) -> ArgView {
        match self {
            Arg::Ptr { alloc, off } => ArgView::Ptr { alloc: *alloc, off: *off },
            Arg::Value(bytes) => ArgView::Value(bytes@),
            Arg::Local(size) => ArgView::Local(*size),
            Arg::Null => ArgView::Null,
        }
    }
}

impl View for LaunchPlan {
    type V = LaunchView;

    open spec fn view(&self) -> LaunchView {
        LaunchView {
            program: self.program,
            name: self.name@,
            dim: self.dim,
            global: self.global@,
            local: self.local@,
            offset: self.offset@,
            args: views(self.args@),
        }
    }
}

impl View for Plan {
    type V = PlanView;

    open spec fn view(&self) -> PlanView {
        PlanView {
            device_name: self.device_name@,
            driver_version: self.driver_version@,
            device_id: self.device_id,
            inputs: views(self.inputs@),
            outputs: views(self.outputs@),
            weights: self.weights@,
            scratch: self.scratch@,
            host: self.host@,
            programs: self.programs@,
            launches: views(self.launches@),
        }
    }
}

// ---------------------------------------------------------------- fields

/// Word `i` of a line, if it has so many.
pub open spec fn word(w: Seq<Seq<char>>, i: int) -> Option<Seq<char>> {
    if 0 <= i < w.len() {
        Some(w[i])
    } else {
        None
    }
}

pub open spec fn field_text(field: Option<&str>) -> Option<Seq<char>> {
    match field {
        Some(f) => Some(f@),
        None => None,
    }
}

/// The size, offset or identifier that a field holds.
pub open spec fn size_field(field: Option<Seq<char>>) -> Option<usize> {
    match field {
        Some(f) => match number(f, 10, usize::MAX as int) {
            Some(n) => Some(n as usize),
            None => None,
        },
        None => None,
    }
}

/// The 32-bit number that a field holds.
pub open spec fn u32_field(field: Option<Seq<char>>) -> Option<u32> {
    match field {
        Some(f) => match number(f, 10, u32::MAX as int) {
            Some(n) => Some(n as u32),
            None => None,
        },
        None => None,
    }
}

/// Three sizes, from word `i` on.
pub open spec fn triple_field(w: Seq<Seq<char>>, i: int) -> Option<Seq<usize>> {
    match (size_field(word(w, i)), size_field(word(w, i + 1)), size_field(word(w, i + 2))) {
        (Some(x), Some(y), Some(z)) => Some(seq![x, y, z]),
        _ => None,
    }
}

/// What is said of a line whose fields are missing or are no numbers.
pub open spec fn bad_line(line: Seq<char>) -> Seq<char> {
    "bad line: "@ + line
}

pub fn bad(line: &str) -> (r: String)
    ensures
        r@ == bad_line(line@),
{
    let mut m: String = "bad line: ".to_owned();
    m.append(line);
    m
}

fn field<'a>(w: &'a Vec<String>, i: usize) -> (r: Option<&'a str>)
    ensures
        field_text(r) == word(views(w@), i as int),
{
    if i < w.len() {
        Some(w[i].as_str())
    } else {
        None
    }
}

/// A size, offset or identifier.
pub fn num(field: Option<&str>, line: &str) -> (r: Result<usize, String>)
    ensures
        match r {
            Ok(n) => size_field(field_text(field)) == Some(n),
            Err(m) => size_field(field_text(field)) is None && m@ == bad_line(line@),
        },
{
    match field {
        Some(f) => match read_number(f, 10, usize::MAX as u64) {
            Some(n) => Ok(n as usize),
            None => Err(bad(line)),
        },
        None => Err(bad(line)),
    }
}

/// A 32-bit number.
pub fn num_u32(field: Option<&str>, line: &str) -> (r: Result<u32, String>)
    ensures
        match r {
            Ok(n) => u32_field(field_text(field)) == Some(n),
            Err(m) => u32_field(field_text(field)) is None && m@ == bad_line(line@),
        },
{
    match field {
        Some(f) => match read_number(f, 10, 0xffff_ffff) {
            Some(n) => Ok(n as u32),
            None => Err(bad(line)),
        },
        None => Err(bad(line)),
    }
}

/// Three sizes.
pub fn triple(w: &Vec<String>, i: usize, line: &str) -> (r: Result<[usize; 3], String>)
    requires
        i <= usize::MAX - 2,
    ensures
        match r {
            Ok(t) => triple_field(views(w@), i as int) == Some(t@),
            Err(m) => triple_field(views(w@), i as int) is None && m@ == bad_line(line@),
        },
{
    let x: usize = num(field(w, i), line)?;
    let y: usize = num(field(w, i + 1), line)?;
    let z: usize = num(field(w, i + 2), line)?;
    let t: [usize; 3] = [x, y, z];
    assert(t@ =~= seq![x, y, z]);
    Ok(t)
}

/// A port record: its fields stand behind the tag. Only an output names its
/// element type; without one it is `u8`.
pub open spec fn port_field(w: Seq<Seq<char>>, typed: bool) -> Option<PortView> {
    match (word(w, 1), size_field(word(w, 2)), size_field(word(w, 3)), size_field(word(w, 4))) {
        (Some(name), Some(alloc), Some(off), Some(bytes)) => Some(
            PortView {
                name,
                alloc,
                off,
                bytes,
                element_type: match word(w, 5) {
                    Some(t) if typed => t,
                    _ => "u8"@,
                },
                golden: usize::MAX,
            },
        ),
        _ => None,
    }
}

pub fn port(w: &Vec<String>, line: &str, typed: bool) -> (r: Result<Port, String>)
    ensures
        match r {
            Ok(p) => port_field(views(w@), typed) == Some(p@),
            Err(m) => port_field(views(w@), typed) is None && m@ == bad_line(line@),
        },
{
    let name: String = match field(w, 1) {
        Some(name) => name.to_owned(),
        None => return Err(bad(line)),
    };
    let alloc: usize = num(field(w, 2), line)?;
    let off: usize = num(field(w, 3), line)?;
    let bytes: usize = num(field(w, 4), line)?;
    let element_type: String = match field(w, 5) {
        Some(t) if typed => t.to_owned(),
        _ => "u8".to_owned(),
    };
    Ok(Port { name, alloc, off, bytes, element_type, golden: usize::MAX })
}

// ---------------------------------------------------------------- arguments

/// One byte, in base sixteen.
pub open spec fn hex_byte(s: Seq<char>) -> Option<u8> {
    match number(s, 16, 0xff) {
        Some(n) => Some(n as u8),
        None => None,
    }
}

/// Words that are bytes in base sixteen, all of them.
pub open spec fn hex_bytes(w: Seq<Seq<char>>) -> Option<Seq<u8>> {
    if forall|i: int| 0 <= i < w.len() ==> hex_byte(#[trigger] w[i]) is Some {
        Some(Seq::new(w.len(), |i: int| hex_byte(w[i])->0))
    } else {
        None
    }
}

/// The by-value argument that a line's words write: how many bytes, then the
/// bytes.
pub open spec fn value_arg(w: Seq<Seq<char>>, line: Seq<char>) -> Result<ArgView, Seq<char>> {
    match size_field(word(w, 1)) {
        None => Err(bad_line(line)),
        Some(n) => match hex_bytes(w.skip(2)) {
            None => Err("bad arg: "@ + line),
            Some(bytes) => if bytes.len() == n {
                Ok(ArgView::Value(bytes))
            } else {
                Err(
                    "value arg has "@ + decimal(bytes.len() as int) + " of "@ + decimal(n as int)
                        + " bytes: "@ + line,
                )
            },
        },
    }
}

/// The kernel argument that a line writes, or what is wrong with it.
pub open spec fn arg_line(line: Seq<char>) -> Result<ArgView, Seq<char>> {
    let w = words(line);
    if word(w, 0) == Some("U"@) {
        match (size_field(word(w, 1)), size_field(word(w, 2))) {
            (Some(alloc), Some(off)) => Ok(ArgView::Ptr { alloc, off }),
            _ => Err(bad_line(line)),
        }
    } else if word(w, 0) == Some("L"@) {
        match size_field(word(w, 1)) {
            Some(size) => Ok(ArgView::Local(size)),
            None => Err(bad_line(line)),
        }
    } else if word(w, 0) == Some("N"@) {
        Ok(ArgView::Null)
    } else if word(w, 0) == Some("V"@) {
        value_arg(w, line)
    } else {
        Err("unsupported arg: "@ + line)
    }
}

/// The view of a result that fails with a message.
pub open spec fn outcome<T: View>(r: Result<T, String>) -> Result<T::V, Seq<char>> {
    match r {
        Ok(t) => Ok(t@),
        Err(m) => Err(m@),
    }
}

/// The bytes of a by-value argument.
fn value_bytes(w: &Vec<String>, line: &str) -> (r: Result<Arg, String>)
    requires
        w@.len() > 0,
    ensures
        outcome(r) == value_arg(views(w@), line@),
{
    let n: usize = num(field(w, 1), line)?;
    let ghost ws = views(w@).skip(2);
    let mut bytes: Vec<u8> = Vec::new();
    let mut i: usize = 2;
    while i < w.len()
        invariant
            i >= 2,
            w@.len() >= 2 ==> i <= w@.len(),
            ws == views(w@).skip(2),
            w@.len() < 2 ==> bytes@.len() == 0,
            w@.len() >= 2 ==> bytes@.len() == i - 2,
            forall|j: int|
                0 <= j < bytes@.len() ==> hex_byte(#[trigger] ws[j]) == Some(bytes@[j]),
            size_field(word(views(w@), 1)) == Some(n),
        decreases w@.len() - i,
    {
        assert(ws[i - 2] == w@[i as int]@);
        match read_number(w[i].as_str(), 16, 0xff) {
            Some(b) => bytes.push(b as u8),
            None => {
                let mut m: String = "bad arg: ".to_owned();
                m.append(line);
                assert(hex_byte(ws[i - 2]) is None);
                return Err(m);
            },
        }
        i += 1;
    }
    assert(w@.len() >= 2) by {
        assert(word(views(w@), 1) is Some);
    }
    assert(hex_bytes(ws) == Some(bytes@)) by {
        assert(bytes@ =~= Seq::new(ws.len(), |i: int| hex_byte(ws[i])->0));
    }
    if bytes.len() != n {
        let mut m: String = "value arg has ".to_owned();
        m.append(write_decimal(bytes.len()).as_str());
        m.append(" of ");
        m.append(write_decimal(n).as_str());
        m.append(" bytes: ");
        m.append(line);
        return Err(m);
    }
    Ok(Arg::Value(bytes))
}

/// Read one kernel argument.
pub fn arg(line: &str) -> (r: Result<Arg, String>)
    ensures
        outcome(r) == arg_line(line@),
{
    let w: Vec<String> = split_whitespace(line);
    if w.len() == 0 {
        let mut m: String = "unsupported arg: ".to_owned();
        m.append(line);
        return Err(m);
    }
    let tag: &str = w[0].as_str();
    assert(word(words(line@), 0) == Some(tag@));
    if same(tag, "U") {
        let alloc: usize = num(field(&w, 1), line)?;
        let off: usize = num(field(&w, 2), line)?;
        Ok(Arg::Ptr { alloc, off })
    } else if same(tag, "L") {
        let size: usize = num(field(&w, 1), line)?;
        Ok(Arg::Local(size))
    } else if same(tag, "N") {
        Ok(Arg::Null)
    } else if same(tag, "V") {
        value_bytes(&w, line)
    } else {
        let mut m: String = "unsupported arg: ".to_owned();
        m.append(line);
        Err(m)
    }
}

// ---------------------------------------------------------------- records

/// What a launch record says; its arguments stand on the lines behind it.
#[derive(Clone, Copy, Debug)]
pub struct LaunchHead {
    pub kernel: usize,
    pub dim: u32,
    pub global: [usize; 3],
    pub local: [usize; 3],
    pub offset: [usize; 3],
    pub nargs: usize,
}

/// A `LaunchHead`, its arrays taken as sequences.
pub struct LaunchHeadView {
    pub kernel: usize,
    pub dim: u32,
    pub global: Seq<usize>,
    pub local: Seq<usize>,
    pub offset: Seq<usize>,
    pub nargs: usize,
}

/// One line of `replay.txt` that is not an argument.
pub enum Record {
    Blank,
    Format(String),
    DeviceName(String),
    DriverVersion(String),
    DeviceId(u32),
    Input(Port),
    Output(Port),
    Golden { input: bool, name: String, off: usize, bytes: usize },
    Weights(Region),
    Scratch(Region),
    Host(Region),
    Program(usize),
    Kernel { id: usize, program: usize, name: String },
    Launch(LaunchHead),
}

/// A `Record`, taken as sequences.
pub enum RecordView {
    Blank,
    Format(Seq<char>),
    DeviceName(Seq<char>),
    DriverVersion(Seq<char>),
    DeviceId(u32),
    Input(PortView),
    Output(PortView),
    Golden { input: bool, name: Seq<char>, off: usize, bytes: usize },
    Weights(Region),
    Scratch(Region),
    Host(Region),
    Program(usize),
    Kernel { id: usize, program: usize, name: Seq<char> },
    Launch(LaunchHeadView),
}

impl View for LaunchHead {
    type V = LaunchHeadView;

    open spec fn view(&self) -> LaunchHeadView {
        LaunchHeadView {
            kernel: self.kernel,
            dim: self.dim,
            global: self.global@,
            local: self.local@,
            offset: self.offset@,
            nargs: self.nargs,
        }
    }
}

impl View for Record {
    type V = RecordView;

    open spec fn view(&self) -> RecordView {
        match self {
            Record::Blank => RecordView::Blank,
            Record::Format(t) => RecordView::Format(t@),
            Record::DeviceName(t) => RecordView::DeviceName(t@),
            Record::DriverVersion(t) => RecordView::DriverVersion(t@),
            Record::DeviceId(n) => RecordView::DeviceId(*n),
            Record::Input(p) => RecordView::Input(p@),
            Record::Output(p) => RecordView::Output(p@),
            Record::Golden { input, name, off, bytes } => RecordView::Golden {
                input: *input,
                name: name@,
                off: *off,
                bytes: *bytes,
            },
            Record::Weights(r) => RecordView::Weights(*r),
            Record::Scratch(r) => RecordView::Scratch(*r),
            Record::Host(r) => RecordView::Host(*r),
            Record::Program(p) => RecordView::Program(*p),
            Record::Kernel { id, program, name } => RecordView::Kernel {
                id: *id,
                program: *program,
                name: name@,
            },
            Record::Launch(head) => RecordView::Launch(head@),
        }
    }
}

/// A record that is there, or the message of a line without it.
pub open spec fn or_bad(r: Option<RecordView>, line: Seq<char>) -> Result<RecordView, Seq<char>> {
    match r {
        Some(r) => Ok(r),
        None => Err(bad_line(line)),
    }
}

pub open spec fn golden_field(w: Seq<Seq<char>>) -> Option<RecordView> {
    let input = word(w, 1) == Some("INPUT"@);
    let output = word(w, 1) == Some("OUTPUT"@);
    match (word(w, 2), size_field(word(w, 3)), size_field(word(w, 4))) {
        (Some(name), Some(off), Some(bytes)) => if input || output {
            Some(RecordView::Golden { input, name, off, bytes })
        } else {
            None
        },
        _ => None,
    }
}

pub open spec fn weights_field(w: Seq<Seq<char>>) -> Option<Region> {
    match (size_field(word(w, 1)), size_field(word(w, 2)), size_field(word(w, 3))) {
        (Some(id), Some(off), Some(size)) => Some(Region { id, off, size }),
        _ => None,
    }
}

/// A scratch or host allocation: it has no contents of its own.
pub open spec fn empty_region_field(w: Seq<Seq<char>>) -> Option<Region> {
    match (size_field(word(w, 1)), size_field(word(w, 2))) {
        (Some(id), Some(size)) => Some(Region { id, off: 0, size }),
        _ => None,
    }
}

pub open spec fn kernel_field(w: Seq<Seq<char>>) -> Option<RecordView> {
    match (size_field(word(w, 1)), size_field(word(w, 2)), word(w, 3)) {
        (Some(id), Some(program), Some(name)) => Some(RecordView::Kernel { id, program, name }),
        _ => None,
    }
}

pub open spec fn launch_field(w: Seq<Seq<char>>) -> Option<LaunchHeadView> {
    match (size_field(word(w, 1)), u32_field(word(w, 2)), size_field(word(w, 12))) {
        (Some(kernel), Some(dim), Some(nargs)) => match (
            triple_field(w, 3),
            triple_field(w, 6),
            triple_field(w, 9),
        ) {
            (Some(global), Some(local), Some(offset)) => Some(
                LaunchHeadView { kernel, dim, global, local, offset, nargs },
            ),
            _ => None,
        },
        _ => None,
    }
}

/// The text of a record: what is left of the line behind as many bytes as its
/// tag has, trimmed.
pub open spec fn rest_of(line: Seq<char>, tag: Seq<char>) -> Seq<char> {
    trim(after_bytes(line, tag.len() as int))
}

/// The record that a line writes, or what is wrong with it.
pub open spec fn record_line(line: Seq<char>) -> Result<RecordView, Seq<char>> {
    let w = words(line);
    if w.len() == 0 {
        Ok(RecordView::Blank)
    } else if w[0] == "FORMAT"@ {
        Ok(RecordView::Format(rest_of(line, "FORMAT"@)))
    } else if w[0] == "DEVICE_NAME"@ {
        Ok(RecordView::DeviceName(rest_of(line, "DEVICE_NAME"@)))
    } else if w[0] == "DRIVER_VERSION"@ {
        Ok(RecordView::DriverVersion(rest_of(line, "DRIVER_VERSION"@)))
    } else if w[0] == "DEVICE_ID"@ {
        match u32_field(word(w, 1)) {
            Some(n) => Ok(RecordView::DeviceId(n)),
            None => Err(bad_line(line)),
        }
    } else if w[0] == "INPUT"@ {
        match port_field(w, false) {
            Some(p) => Ok(RecordView::Input(p)),
            None => Err(bad_line(line)),
        }
    } else if w[0] == "OUTPUT"@ {
        match port_field(w, true) {
            Some(p) => Ok(RecordView::Output(p)),
            None => Err(bad_line(line)),
        }
    } else if w[0] == "GOLDEN"@ {
        or_bad(golden_field(w), line)
    } else if w[0] == "W"@ {
        match weights_field(w) {
            Some(r) => Ok(RecordView::Weights(r)),
            None => Err(bad_line(line)),
        }
    } else if w[0] == "S"@ {
        match empty_region_field(w) {
            Some(r) => Ok(RecordView::Scratch(r)),
            None => Err(bad_line(line)),
        }
    } else if w[0] == "H"@ {
        match empty_region_field(w) {
            Some(r) => Ok(RecordView::Host(r)),
            None => Err(bad_line(line)),
        }
    } else if w[0] == "PROG"@ {
        match size_field(word(w, 1)) {
            Some(p) => Ok(RecordView::Program(p)),
            None => Err(bad_line(line)),
        }
    } else if w[0] == "KERN"@ {
        or_bad(kernel_field(w), line)
    } else if w[0] == "NDR"@ {
        match launch_field(w) {
            Some(head) => Ok(RecordView::Launch(head)),
            None => Err(bad_line(line)),
        }
    } else {
        Err("unknown record "@ + w[0])
    }
}

fn golden_record(w: &Vec<String>, line: &str) -> (r: Result<Record, String>)
    ensures
        outcome(r) == or_bad(golden_field(views(w@)), line@),
{
    let input: bool = match field(w, 1) {
        Some(side) => if same(side, "INPUT") {
            true
        } else if same(side, "OUTPUT") {
            false
        } else {
            return Err(bad(line));
        },
        None => return Err(bad(line)),
    };
    let name: String = match field(w, 2) {
        Some(name) => name.to_owned(),
        None => return Err(bad(line)),
    };
    let off: usize = num(field(w, 3), line)?;
    let bytes: usize = num(field(w, 4), line)?;
    Ok(Record::Golden { input, name, off, bytes })
}

fn weights_region(w: &Vec<String>, line: &str) -> (r: Result<Region, String>)
    ensures
        match r {
            Ok(g) => weights_field(views(w@)) == Some(g),
            Err(m) => weights_field(views(w@)) is None && m@ == bad_line(line@),
        },
{
    let id: usize = num(field(w, 1), line)?;
    let off: usize = num(field(w, 2), line)?;
    let size: usize = num(field(w, 3), line)?;
    Ok(Region { id, off, size })
}

fn empty_region(w: &Vec<String>, line: &str) -> (r: Result<Region, String>)
    ensures
        match r {
            Ok(g) => empty_region_field(views(w@)) == Some(g),
            Err(m) => empty_region_field(views(w@)) is None && m@ == bad_line(line@),
        },
{
    let id: usize = num(field(w, 1), line)?;
    let size: usize = num(field(w, 2), line)?;
    Ok(Region { id, off: 0, size })
}

fn kernel_record(w: &Vec<String>, line: &str) -> (r: Result<Record, String>)
    ensures
        outcome(r) == or_bad(kernel_field(views(w@)), line@),
{
    let id: usize = num(field(w, 1), line)?;
    let program: usize = num(field(w, 2), line)?;
    match field(w, 3) {
        Some(name) => Ok(Record::Kernel { id, program, name: name.to_owned() }),
        None => Err(bad(line)),
    }
}

fn launch_head(w: &Vec<String>, line: &str) -> (r: Result<LaunchHead, String>)
    ensures
        match r {
            Ok(h) => launch_field(views(w@)) == Some(h@),
            Err(m) => launch_field(views(w@)) is None && m@ == bad_line(line@),
        },
{
    let kernel: usize = num(field(w, 1), line)?;
    let dim: u32 = num_u32(field(w, 2), line)?;
    let global: [usize; 3] = triple(w, 3, line)?;
    let local: [usize; 3] = triple(w, 6, line)?;
    let offset: [usize; 3] = triple(w, 9, line)?;
    let nargs: usize = num(field(w, 12), line)?;
    Ok(LaunchHead { kernel, dim, global, local, offset, nargs })
}

/// Read one record.
pub fn record(line: &str) -> (r: Result<Record, String>)
    ensures
        outcome(r) == record_line(line@),
{
    let w: Vec<String> = split_whitespace(line);
    if w.len() == 0 {
        return Ok(Record::Blank);
    }
    let tag: &str = w[0].as_str();
    assert(words(line@)[0] == tag@);
    if same(tag, "FORMAT") {
        proof {
            reveal_strlit("FORMAT");
        }
        Ok(Record::Format(trimmed_after(line, 6)))
    } else if same(tag, "DEVICE_NAME") {
        proof {
            reveal_strlit("DEVICE_NAME");
        }
        Ok(Record::DeviceName(trimmed_after(line, 11)))
    } else if same(tag, "DRIVER_VERSION") {
        proof {
            reveal_strlit("DRIVER_VERSION");
        }
        Ok(Record::DriverVersion(trimmed_after(line, 14)))
    } else if same(tag, "DEVICE_ID") {
        let n: u32 = num_u32(field(&w, 1), line)?;
        Ok(Record::DeviceId(n))
    } else if same(tag, "INPUT") {
        let p: Port = port(&w, line, false)?;
        Ok(Record::Input(p))
    } else if same(tag, "OUTPUT") {
        let p: Port = port(&w, line, true)?;
        Ok(Record::Output(p))
    } else if same(tag, "GOLDEN") {
        golden_record(&w, line)
    } else if same(tag, "W") {
        let g: Region = weights_region(&w, line)?;
        Ok(Record::Weights(g))
    } else if same(tag, "S") {
        let g: Region = empty_region(&w, line)?;
        Ok(Record::Scratch(g))
    } else if same(tag, "H") {
        let g: Region = empty_region(&w, line)?;
        Ok(Record::Host(g))
    } else if same(tag, "PROG") {
        let p: usize = num(field(&w, 1), line)?;
        Ok(Record::Program(p))
    } else if same(tag, "KERN") {
        kernel_record(&w, line)
    } else if same(tag, "NDR") {
        let h: LaunchHead = launch_head(&w, line)?;
        Ok(Record::Launch(h))
    } else {
        let mut m: String = "unknown record ".to_owned();
        m.append(tag);
        Err(m)
    }
}

// ---------------------------------------------------------------- the whole text

/// What the records so far have said.
struct Draft {
    plan: Plan,
    format: Option<String>,
    /// The program and the name of each kernel.
    kernels: HashMap<usize, (usize, String)>,
    /// Where `golden.bin` holds the contents of each input, and their size.
    golden_inputs: StringHashMap<(usize, usize)>,
    /// The same for the outputs.
    golden_outputs: StringHashMap<(usize, usize)>,
}

/// What the records so far have said, as sequences and maps. A later record
/// about one kernel, or about one port's golden data, replaces an earlier.
pub struct DraftView {
    pub plan: PlanView,
    pub format: Option<Seq<char>>,
    pub kernels: Map<usize, (usize, Seq<char>)>,
    pub golden_inputs: Map<Seq<char>, (usize, usize)>,
    pub golden_outputs: Map<Seq<char>, (usize, usize)>,
}

impl View for Draft {
    type V = DraftView;

    closed spec fn view(&self) -> DraftView {
        DraftView {
            plan: self.plan@,
            format: match self.format {
                Some(f) => Some(f@),
                None => None,
            },
            kernels: self.kernels@.map_values(|k: (usize, String)| (k.0, k.1@)),
            golden_inputs: self.golden_inputs@,
            golden_outputs: self.golden_outputs@,
        }
    }
}

/// A plan of which nothing is known.
pub open spec fn empty_plan() -> PlanView {
    PlanView {
        device_name: seq![],
        driver_version: seq![],
        device_id: None,
        inputs: seq![],
        outputs: seq![],
        weights: seq![],
        scratch: seq![],
        host: seq![],
        programs: seq![],
        launches: seq![],
    }
}

pub open spec fn empty_draft() -> DraftView {
    DraftView {
        plan: empty_plan(),
        format: None,
        kernels: Map::empty(),
        golden_inputs: Map::empty(),
        golden_outputs: Map::empty(),
    }
}

/// What is known after one more record, a launch apart.
pub open spec fn noted(d: DraftView, r: RecordView) -> DraftView {
    match r {
        RecordView::Blank => d,
        RecordView::Format(t) => DraftView { format: Some(t), ..d },
        RecordView::DeviceName(t) => DraftView { plan: PlanView { device_name: t, ..d.plan }, ..d },
        RecordView::DriverVersion(t) => DraftView {
            plan: PlanView { driver_version: t, ..d.plan },
            ..d
        },
        RecordView::DeviceId(n) => DraftView {
            plan: PlanView { device_id: Some(n), ..d.plan },
            ..d
        },
        RecordView::Input(p) => DraftView {
            plan: PlanView { inputs: d.plan.inputs.push(p), ..d.plan },
            ..d
        },
        RecordView::Output(p) => DraftView {
            plan: PlanView { outputs: d.plan.outputs.push(p), ..d.plan },
            ..d
        },
        RecordView::Golden { input, name, off, bytes } => if input {
            DraftView { golden_inputs: d.golden_inputs.insert(name, (off, bytes)), ..d }
        } else {
            DraftView { golden_outputs: d.golden_outputs.insert(name, (off, bytes)), ..d }
        },
        RecordView::Weights(g) => DraftView {
            plan: PlanView { weights: d.plan.weights.push(g), ..d.plan },
            ..d
        },
        RecordView::Scratch(g) => DraftView {
            plan: PlanView { scratch: d.plan.scratch.push(g), ..d.plan },
            ..d
        },
        RecordView::Host(g) => DraftView {
            plan: PlanView { host: d.plan.host.push(g), ..d.plan },
            ..d
        },
        RecordView::Program(p) => DraftView {
            plan: PlanView { programs: d.plan.programs.push(p), ..d.plan },
            ..d
        },
        RecordView::Kernel { id, program, name } => DraftView {
            kernels: d.kernels.insert(id, (program, name)),
            ..d
        },
        RecordView::Launch(_) => d,
    }
}

/// The arguments on the first `n` lines, or what is wrong with the first of
/// them that is none.
pub open spec fn arg_lines(lines: Seq<Seq<char>>, n: nat) -> Result<Seq<ArgView>, Seq<char>>
    decreases n,
{
    if n == 0 {
        Ok(seq![])
    } else {
        match arg_lines(lines, (n - 1) as nat) {
            Err(m) => Err(m),
            Ok(args) => if n > lines.len() {
                Err("launch truncated"@)
            } else {
                match arg_line(lines[n - 1]) {
                    Err(m) => Err(m),
                    Ok(a) => Ok(args.push(a)),
                }
            },
        }
    }
}

/// There is one argument for each line.
proof fn lemma_arg_lines(lines: Seq<Seq<char>>, n: nat)
    ensures
        arg_lines(lines, n) matches Ok(args) ==> n <= lines.len() && args.len() == n && forall|
            i: int,
        |
            0 <= i < n ==> arg_line(lines[i]) == Ok::<ArgView, Seq<char>>(#[trigger] args[i]),
    decreases n,
{
    if n > 0 {
        lemma_arg_lines(lines, (n - 1) as nat);
    }
}

/// More lines are asked for, and the message stays that of the first fault.
proof fn lemma_arg_lines_fail(lines: Seq<Seq<char>>, k: nat, n: nat)
    requires
        k <= n,
        arg_lines(lines, k) is Err,
    ensures
        arg_lines(lines, n) == arg_lines(lines, k),
    decreases n,
{
    if k < n {
        lemma_arg_lines_fail(lines, k, (n - 1) as nat);
    }
}

/// What is known after a launch whose arguments stand on the lines behind it,
/// or what is wrong with it.
pub open spec fn launched(
    d: DraftView,
    head: LaunchHeadView,
    rest: Seq<Seq<char>>,
) -> Result<DraftView, Seq<char>> {
    if !d.kernels.contains_key(head.kernel) {
        Err("launch of unknown kernel "@ + decimal(head.kernel as int))
    } else {
        match arg_lines(rest, head.nargs as nat) {
            Err(m) => Err(m),
            Ok(args) => {
                let launch = LaunchView {
                    program: d.kernels[head.kernel].0,
                    name: d.kernels[head.kernel].1,
                    dim: head.dim,
                    global: head.global,
                    local: head.local,
                    offset: head.offset,
                    args,
                };
                Ok(
                    DraftView {
                        plan: PlanView { launches: d.plan.launches.push(launch), ..d.plan },
                        ..d
                    },
                )
            },
        }
    }
}

/// What is known after the record on the first of these lines, and how many
/// lines it takes, or what is wrong with it.
pub open spec fn read_record(lines: Seq<Seq<char>>, d: DraftView) -> Result<
    (DraftView, int),
    Seq<char>,
> {
    match record_line(lines[0]) {
        Err(m) => Err(m),
        Ok(RecordView::Launch(head)) => match launched(d, head, lines.drop_first()) {
            Err(m) => Err(m),
            Ok(next) => Ok((next, 1 + head.nargs as int)),
        },
        Ok(r) => Ok((noted(d, r), 1)),
    }
}

/// A record takes a line at least, and no line that is not there.
pub proof fn lemma_read_record(lines: Seq<Seq<char>>, d: DraftView)
    requires
        lines.len() > 0,
    ensures
        read_record(lines, d) matches Ok((_, k)) ==> 1 <= k <= lines.len(),
{
    if let Ok(RecordView::Launch(head)) = record_line(lines[0]) {
        lemma_arg_lines(lines.drop_first(), head.nargs as nat);
    }
}

/// What is known after all these lines, or what is wrong with the first of
/// them that does not fit.
pub open spec fn read_records(lines: Seq<Seq<char>>, d: DraftView) -> Result<DraftView, Seq<char>>
    decreases lines.len(),
{
    if lines.len() == 0 {
        Ok(d)
    } else {
        proof {
            lemma_read_record(lines, d);
        }
        match read_record(lines, d) {
            Err(m) => Err(m),
            Ok((next, k)) => read_records(lines.skip(k), next),
        }
    }
}

/// A port with the place of its golden data, which must be as long as itself.
pub open spec fn with_golden(p: PortView, golden: Map<Seq<char>, (usize, usize)>) -> Result<
    PortView,
    Seq<char>,
> {
    if !golden.contains_key(p.name) {
        Err("no golden data for "@ + p.name)
    } else if golden[p.name].1 != p.bytes {
        Err(
            "golden data for "@ + p.name + " is "@ + decimal(golden[p.name].1 as int)
                + " bytes, port is "@ + decimal(p.bytes as int),
        )
    } else {
        Ok(PortView { golden: golden[p.name].0, ..p })
    }
}

/// The ports with their golden data, or what is wrong with the first of them.
pub open spec fn all_with_golden(
    ports: Seq<PortView>,
    golden: Map<Seq<char>, (usize, usize)>,
) -> Result<Seq<PortView>, Seq<char>>
    decreases ports.len(),
{
    if ports.len() == 0 {
        Ok(seq![])
    } else {
        match all_with_golden(ports.drop_last(), golden) {
            Err(m) => Err(m),
            Ok(done) => match with_golden(ports.last(), golden) {
                Err(m) => Err(m),
                Ok(p) => Ok(done.push(p)),
            },
        }
    }
}

/// The plan that the records have made, or what it lacks.
pub open spec fn completed(d: DraftView) -> Result<PlanView, Seq<char>> {
    if d.format != Some(FORMAT@) {
        Err(
            "not an "@ + FORMAT@ + " recording (FORMAT "@ + (match d.format {
                Some(f) => f,
                None => seq![],
            }) + ")"@,
        )
    } else if d.plan.device_name.len() == 0 || d.plan.inputs.len() == 0 || d.plan.outputs.len() == 0
        || d.plan.launches.len() == 0 {
        Err("recording is missing its device, inputs, outputs or launches"@)
    } else {
        match all_with_golden(d.plan.inputs, d.golden_inputs) {
            Err(m) => Err(m),
            Ok(inputs) => match all_with_golden(d.plan.outputs, d.golden_outputs) {
                Err(m) => Err(m),
                Ok(outputs) => Ok(PlanView { inputs, outputs, ..d.plan }),
            },
        }
    }
}

/// The plan that a text writes, or what is wrong with it.
pub open spec fn parsed(text: Seq<char>) -> Result<PlanView, Seq<char>> {
    match read_records(lines(text), empty_draft()) {
        Err(m) => Err(m),
        Ok(d) => completed(d),
    }
}

impl Draft {
    fn new() -> (r: Self)
        ensures
            r@ == empty_draft(),
    {
        let r = Draft {
            plan: Plan {
                device_name: String::new(),
                driver_version: String::new(),
                device_id: None,
                inputs: Vec::new(),
                outputs: Vec::new(),
                weights: Vec::new(),
                scratch: Vec::new(),
                host: Vec::new(),
                programs: Vec::new(),
                launches: Vec::new(),
            },
            format: None,
            kernels: HashMap::new(),
            golden_inputs: StringHashMap::new(),
            golden_outputs: StringHashMap::new(),
        };
        assert(r@.plan.inputs =~= seq![]);
        assert(r@.plan.outputs =~= seq![]);
        assert(r@.plan.launches =~= seq![]);
        assert(r@.plan.weights =~= seq![]);
        assert(r@.plan.scratch =~= seq![]);
        assert(r@.plan.host =~= seq![]);
        assert(r@.plan.programs =~= seq![]);
        assert(r@.plan.device_name =~= seq![]);
        assert(r@.plan.driver_version =~= seq![]);
        assert(r@.kernels =~= Map::empty());
        r
    }

    /// Take a record in, a launch apart.
    fn note(&mut self, r: Record)
        requires
            !(r is Launch),
        ensures
            final(self)@ == noted(old(self)@, r@),
    {
        match r {
            Record::Blank => {},
            Record::Format(t) => {
                self.format = Some(t);
            },
            Record::DeviceName(t) => {
                self.plan.device_name = t;
            },
            Record::DriverVersion(t) => {
                self.plan.driver_version = t;
            },
            Record::DeviceId(n) => {
                self.plan.device_id = Some(n);
            },
            Record::Input(p) => {
                self.plan.inputs.push(p);
            },
            Record::Output(p) => {
                self.plan.outputs.push(p);
            },
            Record::Golden { input, name, off, bytes } => {
                if input {
                    self.golden_inputs.insert(name, (off, bytes));
                } else {
                    self.golden_outputs.insert(name, (off, bytes));
                }
            },
            Record::Weights(g) => {
                self.plan.weights.push(g);
            },
            Record::Scratch(g) => {
                self.plan.scratch.push(g);
            },
            Record::Host(g) => {
                self.plan.host.push(g);
            },
            Record::Program(p) => {
                self.plan.programs.push(p);
            },
            Record::Kernel { id, program, name } => {
                self.kernels.insert(id, (program, name));
                assert(self@.kernels =~= old(self)@.kernels.insert(id, (program, name@)));
            },
            Record::Launch(_) => {},
        }
    }
}

/// Read the arguments on the `n` lines from `start` on.
fn read_args(lines: &Vec<String>, start: usize, n: usize) -> (r: Result<Vec<Arg>, String>)
    requires
        start <= lines@.len(),
    ensures
        match r {
            Ok(args) => arg_lines(views(lines@).skip(start as int), n as nat) == Ok::<
                Seq<ArgView>,
                Seq<char>,
            >(views(args@)),
            Err(m) => arg_lines(views(lines@).skip(start as int), n as nat) == Err::<
                Seq<ArgView>,
                Seq<char>,
            >(m@),
        },
{
    let ghost ls = views(lines@).skip(start as int);
    let mut args: Vec<Arg> = Vec::new();
    let mut k: usize = 0;
    assert(views(args@) =~= seq![]);
    while k < n
        invariant
            start <= lines@.len(),
            k <= n,
            ls == views(lines@).skip(start as int),
            k <= ls.len(),
            arg_lines(ls, k as nat) == Ok::<Seq<ArgView>, Seq<char>>(views(args@)),
        decreases n - k,
    {
        if k >= lines.len() - start {
            proof {
                lemma_arg_lines_fail(ls, k as nat + 1, n as nat);
            }
            return Err("launch truncated".to_owned());
        }
        assert(ls[k as int] == lines@[start + k]@);
        match arg(lines[start + k].as_str()) {
            Ok(a) => {
                assert(arg_lines(ls, k as nat + 1) == Ok::<Seq<ArgView>, Seq<char>>(
                    views(args@).push(a@),
                ));
                args.push(a);
            },
            Err(m) => {
                proof {
                    lemma_arg_lines_fail(ls, k as nat + 1, n as nat);
                }
                return Err(m);
            },
        }
        k += 1;
    }
    Ok(args)
}

impl Draft {
    /// Take in a launch whose arguments stand on the lines from `start` on.
    fn launch(&mut self, head: LaunchHead, rows: &Vec<String>, start: usize) -> (r: Result<
        (),
        String,
    >)
        requires
            start <= rows@.len(),
        ensures
            match r {
                Ok(_) => launched(old(self)@, head@, views(rows@).skip(start as int)) == Ok::<
                    DraftView,
                    Seq<char>,
                >(final(self)@) && head.nargs <= rows@.len() - start,
                Err(m) => launched(old(self)@, head@, views(rows@).skip(start as int)) == Err::<
                    DraftView,
                    Seq<char>,
                >(m@),
            },
    {
        let (program, name): (usize, String) = match self.kernels.get(&head.kernel) {
            Some(k) => (k.0, k.1.clone()),
            None => {
                let mut m: String = "launch of unknown kernel ".to_owned();
                m.append(write_decimal(head.kernel).as_str());
                return Err(m);
            },
        };
        assert(self@.kernels.contains_key(head.kernel));
        assert(self@.kernels[head.kernel] == (program, name@));
        let args: Vec<Arg> = read_args(rows, start, head.nargs)?;
        proof {
            lemma_arg_lines(views(rows@).skip(start as int), head.nargs as nat);
        }
        let launch: LaunchPlan = LaunchPlan {
            program,
            name,
            dim: head.dim,
            global: head.global,
            local: head.local,
            offset: head.offset,
            args,
        };
        self.plan.launches.push(launch);
        Ok(())
    }

    /// Take in the record on line `i`: how many lines it takes.
    fn read(&mut self, rows: &Vec<String>, i: usize) -> (r: Result<usize, String>)
        requires
            i < rows@.len(),
        ensures
            match r {
                Ok(k) => 1 <= k <= rows@.len() - i && read_record(
                    views(rows@).skip(i as int),
                    old(self)@,
                ) == Ok::<(DraftView, int), Seq<char>>((final(self)@, k as int)),
                Err(m) => read_record(views(rows@).skip(i as int), old(self)@) == Err::<
                    (DraftView, int),
                    Seq<char>,
                >(m@),
            },
    {
        let ghost ls = views(rows@).skip(i as int);
        assert(i < rows.len());
        assert(ls[0] == rows@[i as int]@);
        assert(ls.drop_first() =~= views(rows@).skip(i as int + 1));
        let r: Record = record(rows[i].as_str())?;
        match r {
            Record::Launch(head) => {
                self.launch(head, rows, i + 1)?;
                Ok(1 + head.nargs)
            },
            _ => {
                self.note(r);
                Ok(1)
            },
        }
    }
}

proof fn lemma_all_with_golden_fails(
    ports: Seq<PortView>,
    golden: Map<Seq<char>, (usize, usize)>,
    k: int,
)
    requires
        0 <= k <= ports.len(),
        all_with_golden(ports.take(k), golden) is Err,
    ensures
        all_with_golden(ports, golden) == all_with_golden(ports.take(k), golden),
    decreases ports.len(),
{
    if k == ports.len() {
        assert(ports.take(k) =~= ports);
    } else {
        assert(ports.drop_last().take(k) =~= ports.take(k));
        lemma_all_with_golden_fails(ports.drop_last(), golden, k);
    }
}

/// Give each port the place of its golden data.
fn bind_golden(ports: Vec<Port>, golden: &StringHashMap<(usize, usize)>) -> (r: Result<
    Vec<Port>,
    String,
>)
    ensures
        match r {
            Ok(done) => all_with_golden(views(ports@), golden@) == Ok::<Seq<PortView>, Seq<char>>(
                views(done@),
            ),
            Err(m) => all_with_golden(views(ports@), golden@) == Err::<Seq<PortView>, Seq<char>>(
                m@,
            ),
        },
{
    let ghost all = views(ports@);
    let mut done: Vec<Port> = Vec::new();
    let n: usize = ports.len();
    let mut i: usize = 0;
    assert(all.take(0) =~= seq![]);
    assert(views(done@) =~= seq![]);
    while i < n
        invariant
            i <= n,
            n == ports@.len(),
            all == views(ports@),
            all_with_golden(all.take(i as int), golden@) == Ok::<Seq<PortView>, Seq<char>>(
                views(done@),
            ),
        decreases n - i,
    {
        let p: &Port = &ports[i];
        proof {
            assert(all.take(i as int + 1).drop_last() =~= all.take(i as int));
            assert(all.take(i as int + 1).last() == p@);
        }
        let (off, bytes): (usize, usize) = match golden.get(p.name.as_str()) {
            Some(g) => (g.0, g.1),
            None => {
                let mut m: String = "no golden data for ".to_owned();
                m.append(p.name.as_str());
                proof {
                    lemma_all_with_golden_fails(all, golden@, i as int + 1);
                }
                return Err(m);
            },
        };
        if bytes != p.bytes {
            let mut m: String = "golden data for ".to_owned();
            m.append(p.name.as_str());
            m.append(" is ");
            m.append(write_decimal(bytes).as_str());
            m.append(" bytes, port is ");
            m.append(write_decimal(p.bytes).as_str());
            proof {
                lemma_all_with_golden_fails(all, golden@, i as int + 1);
            }
            return Err(m);
        }
        let bound: Port = Port {
            name: p.name.clone(),
            alloc: p.alloc,
            off: p.off,
            bytes: p.bytes,
            element_type: p.element_type.clone(),
            golden: off,
        };
        assert(with_golden(p@, golden@) == Ok::<PortView, Seq<char>>(bound@));
        done.push(bound);
        i += 1;
    }
    assert(all.take(n as int) =~= all);
    Ok(done)
}

/// The largest identifier in a list of allocations, or 0.
pub open spec fn largest_id(regions: Seq<Region>) -> int
    decreases regions.len(),
{
    if regions.len() == 0 {
        0
    } else if regions.last().id > largest_id(regions.drop_last()) {
        regions.last().id as int
    } else {
        largest_id(regions.drop_last())
    }
}

/// The largest identifier of an allocation that a plan lists, or 0.
pub open spec fn largest_alloc_id(p: PlanView) -> int {
    largest_id(p.weights + p.scratch + p.host)
}

fn largest(regions: &Vec<Region>, from: usize, before: Ghost<Seq<Region>>) -> (r: usize)
    requires
        from == largest_id(before@),
    ensures
        r == largest_id(before@ + regions@),
{
    let mut top: usize = from;
    let mut i: usize = 0;
    assert(before@ + regions@.take(0) =~= before@);
    while i < regions.len()
        invariant
            i <= regions@.len(),
            top == largest_id(before@ + regions@.take(i as int)),
        decreases regions@.len() - i,
    {
        proof {
            let s = before@ + regions@.take(i as int + 1);
            assert(s.drop_last() =~= before@ + regions@.take(i as int));
            assert(s.last() == regions@[i as int]);
        }
        if regions[i].id > top {
            top = regions[i].id;
        }
        i += 1;
    }
    assert(regions@.take(regions@.len() as int) =~= regions@);
    top
}

impl Plan {
    /// Parse the text of a recording.
    pub fn parse(text: &str) -> (r: Result<Self, String>)
        ensures
            outcome(r) == parsed(text@),
    {
        let rows: Vec<String> = split_lines(text);
        let ghost ls = views(rows@);
        let mut draft: Draft = Draft::new();
        let n: usize = rows.len();
        let mut i: usize = 0;
        assert(ls.skip(0) =~= ls);
        while i < n
            invariant
                i <= n,
                n == rows@.len(),
                ls == views(rows@),
                ls == lines(text@),
                read_records(ls, empty_draft()) == read_records(ls.skip(i as int), draft@),
            decreases n - i,
        {
            let k: usize = draft.read(&rows, i)?;
            assert(ls.skip(i as int).skip(k as int) =~= ls.skip(i as int + k as int));
            i += k;
        }
        let Draft { plan, format, kernels: _, golden_inputs, golden_outputs } = draft;
        let mut plan: Plan = plan;
        let (given, known): (String, bool) = match format {
            Some(f) => {
                let known: bool = same(f.as_str(), FORMAT);
                (f, known)
            },
            None => (String::new(), false),
        };
        if !known {
            let mut m: String = "not an ".to_owned();
            m.append(FORMAT);
            m.append(" recording (FORMAT ");
            m.append(given.as_str());
            m.append(")");
            return Err(m);
        }
        if plan.device_name.as_str().is_empty() || plan.inputs.len() == 0 || plan.outputs.len() == 0
            || plan.launches.len() == 0 {
            return Err("recording is missing its device, inputs, outputs or launches".to_owned());
        }
        plan.inputs = bind_golden(plan.inputs, &golden_inputs)?;
        plan.outputs = bind_golden(plan.outputs, &golden_outputs)?;
        Ok(plan)
    }

    /// The largest identifier of an allocation, or 0.
    pub fn max_alloc_id(&self) -> (r: usize)
        ensures
            r == largest_alloc_id(self@),
    {
        let w: usize = largest(&self.weights, 0, Ghost(Seq::empty()));
        assert(Seq::<Region>::empty() + self.weights@ =~= self.weights@);
        let s: usize = largest(&self.scratch, w, Ghost(self.weights@));
        largest(&self.host, s, Ghost(self.weights@ + self.scratch@))
    }
}

// ---------------------------------------------------------------- laws

proof fn lemma_arg_lines_of_more(lines: Seq<Seq<char>>, more: Seq<Seq<char>>, n: nat)
    ensures
        arg_lines(lines, n) is Ok ==> arg_lines(lines + more, n) == arg_lines(lines, n),
    decreases n,
{
    if n > 0 {
        lemma_arg_lines_of_more(lines, more, (n - 1) as nat);
    }
}

proof fn lemma_read_record_of_more(lines: Seq<Seq<char>>, more: Seq<Seq<char>>, d: DraftView)
    requires
        lines.len() > 0,
    ensures
        read_record(lines, d) is Ok ==> read_record(lines + more, d) == read_record(lines, d),
{
    assert((lines + more)[0] == lines[0]);
    if let Ok(RecordView::Launch(head)) = record_line(lines[0]) {
        assert((lines + more).drop_first() =~= lines.drop_first() + more);
        lemma_arg_lines_of_more(lines.drop_first(), more, head.nargs as nat);
    }
}

/// Records are read one behind the other: later lines go by what the earlier
/// ones have said.
#[verifier::spinoff_prover]
#[verifier::rlimit(40)]
pub proof fn law_records_are_read_in_order(a: Seq<Seq<char>>, b: Seq<Seq<char>>, d: DraftView)
    ensures
        read_records(a, d) matches Ok(e) ==> read_records(a + b, d) == read_records(b, e),
    decreases a.len(),
{
    if a.len() == 0 {
        assert(a + b =~= b);
    } else {
        lemma_read_record_of_more(a, b, d);
        if let Ok((next, k)) = read_record(a, d) {
            lemma_read_record(a, d);
            assert((a + b).skip(k) =~= a.skip(k) + b);
            law_records_are_read_in_order(a.skip(k), b, next);
            assert(read_records(a, d) == read_records(a.skip(k), next));
            assert(read_records(a + b, d) == read_records(a.skip(k) + b, next));
        }
    }
}

/// Between records, a line of whitespace says nothing.
#[verifier::spinoff_prover]
#[verifier::rlimit(40)]
pub proof fn law_blank_lines_are_skipped(
    a: Seq<Seq<char>>,
    blank: Seq<char>,
    b: Seq<Seq<char>>,
    d: DraftView,
)
    requires
        forall|i: int| 0 <= i < blank.len() ==> is_space(#[trigger] blank[i]),
        read_records(a, d) is Ok,
    ensures
        read_records(a + seq![blank] + b, d) == read_records(a + b, d),
{
    law_blank_text_has_no_words(blank);
    let e = read_records(a, d)->Ok_0;
    let one = seq![blank];
    law_records_are_read_in_order(a, b, d);
    law_records_are_read_in_order(a, one + b, d);
    assert(a + one + b =~= a + (one + b));
    assert((one + b)[0] == blank);
    assert((one + b).skip(1) =~= b);
    assert(noted(e, RecordView::Blank) == e);
}

/// A record that cannot be read, behind records that can, is what is wrong
/// with the text, whatever comes behind it: a record of another kind is named,
/// and one without its fields is shown.
#[verifier::spinoff_prover]
#[verifier::rlimit(40)]
pub proof fn law_an_unreadable_record_is_refused(
    text: Seq<char>,
    a: Seq<Seq<char>>,
    line: Seq<char>,
    b: Seq<Seq<char>>,
    message: Seq<char>,
)
    requires
        lines(text) == a + seq![line] + b,
        read_records(a, empty_draft()) is Ok,
        record_line(line) == Err::<RecordView, Seq<char>>(message),
    ensures
        parsed(text) == Err::<PlanView, Seq<char>>(message),
        message == bad_line(line) || message == "unknown record "@ + words(line)[0],
{
    law_records_are_read_in_order(a, seq![line] + b, empty_draft());
    assert(a + seq![line] + b =~= a + (seq![line] + b));
    assert((seq![line] + b)[0] == line);
}

/// Reading goes forward only: what a list holds stays, and stays first.
#[verifier::spinoff_prover]
#[verifier::rlimit(40)]
pub proof fn law_reading_only_adds(rows: Seq<Seq<char>>, d: DraftView)
    ensures
        read_records(rows, d) matches Ok(e) ==> {
            &&& d.plan.inputs.is_prefix_of(e.plan.inputs)
            &&& d.plan.outputs.is_prefix_of(e.plan.outputs)
            &&& d.plan.weights.is_prefix_of(e.plan.weights)
            &&& d.plan.scratch.is_prefix_of(e.plan.scratch)
            &&& d.plan.host.is_prefix_of(e.plan.host)
            &&& d.plan.programs.is_prefix_of(e.plan.programs)
            &&& d.plan.launches.is_prefix_of(e.plan.launches)
            &&& d.kernels.dom().subset_of(e.kernels.dom())
            &&& d.golden_inputs.dom().subset_of(e.golden_inputs.dom())
            &&& d.golden_outputs.dom().subset_of(e.golden_outputs.dom())
        },
    decreases rows.len(),
{
    if rows.len() > 0 {
        if let Ok((next, k)) = read_record(rows, d) {
            lemma_read_record(rows, d);
            law_reading_only_adds(rows.skip(k), next);
        }
    }
}

/// A launch takes the program and the name that its kernel was given last,
/// and as many arguments as it says, one from each line behind it.
pub proof fn law_a_launch_has_its_kernel_and_arguments(
    d: DraftView,
    head: LaunchHeadView,
    rest: Seq<Seq<char>>,
    e: DraftView,
)
    requires
        launched(d, head, rest) == Ok::<DraftView, Seq<char>>(e),
    ensures
        d.kernels.contains_key(head.kernel),
        e.plan.launches.len() == d.plan.launches.len() + 1,
        e.plan.launches.last().program == d.kernels[head.kernel].0,
        e.plan.launches.last().name == d.kernels[head.kernel].1,
        e.plan.launches.last().args.len() == head.nargs,
        head.nargs <= rest.len(),
        forall|i: int|
            0 <= i < head.nargs ==> arg_line(rest[i]) == Ok::<ArgView, Seq<char>>(
                #[trigger] e.plan.launches.last().args[i],
            ),
{
    lemma_arg_lines(rest, head.nargs as nat);
}

/// A by-value argument holds as many bytes as its line announces, and they
/// are the bytes of the line's words, in order.
pub proof fn law_value_arguments_are_whole(line: Seq<char>, bytes: Seq<u8>)
    requires
        arg_line(line) == Ok::<ArgView, Seq<char>>(ArgView::Value(bytes)),
    ensures
        words(line).len() == bytes.len() + 2,
        words(line)[0] == "V"@,
        size_field(Some(words(line)[1])) matches Some(n) && n == bytes.len(),
        forall|i: int|
            0 <= i < bytes.len() ==> hex_byte(words(line)[i + 2]) == Some(#[trigger] bytes[i]),
{
    let w = words(line);
    let ws = w.skip(2);
    assert(value_arg(w, line) == Ok::<ArgView, Seq<char>>(ArgView::Value(bytes)));
    assert(word(w, 1) is Some);
    assert forall|i: int| 0 <= i < bytes.len() implies hex_byte(w[i + 2]) == Some(
        #[trigger] bytes[i],
    ) by {
        assert(hex_byte(ws[i]) is Some);
        assert(ws[i] == w[i + 2]);
    }
}

/// The text of a record that stands at the beginning of its line is what is
/// behind the tag, without the whitespace at its two ends.
pub proof fn law_text_behind_a_tag(tag: Seq<char>, rest: Seq<char>)
    requires
        forall|i: int| 0 <= i < tag.len() ==> utf8_len(#[trigger] tag[i]) == 1,
    ensures
        rest_of(tag + rest, tag) == trim(rest),
{
    let line = tag + rest;
    assert forall|i: int| 0 <= i < tag.len() implies utf8_len(#[trigger] line[i]) == 1 by {
        assert(line[i] == tag[i]);
    }
    lemma_after_ascii(line, tag.len());
    assert(line.skip(tag.len() as int) =~= rest);
}

/// Each port has golden data of its own length.
pub open spec fn golden_fits(ports: Seq<PortView>, golden: Map<Seq<char>, (usize, usize)>) -> bool {
    forall|i: int|
        0 <= i < ports.len() ==> golden.contains_key((#[trigger] ports[i]).name)
            && golden[ports[i].name].1 == ports[i].bytes
}

/// Each port, with the place of its golden data.
pub open spec fn golden_placed(
    ports: Seq<PortView>,
    golden: Map<Seq<char>, (usize, usize)>,
) -> Seq<PortView> {
    ports.map_values(|p: PortView| PortView { golden: golden[p.name].0, ..p })
}

proof fn lemma_all_with_golden(ports: Seq<PortView>, golden: Map<Seq<char>, (usize, usize)>)
    ensures
        all_with_golden(ports, golden) is Ok <==> golden_fits(ports, golden),
        all_with_golden(ports, golden) matches Ok(done) ==> done == golden_placed(ports, golden),
    decreases ports.len(),
{
    if ports.len() > 0 {
        let front = ports.drop_last();
        lemma_all_with_golden(front, golden);
        if all_with_golden(ports, golden) is Ok {
            assert forall|i: int| 0 <= i < ports.len() implies golden.contains_key(
                (#[trigger] ports[i]).name,
            ) && golden[ports[i].name].1 == ports[i].bytes by {
                if i < front.len() {
                    assert(front[i] == ports[i]);
                }
            }
            assert(golden_placed(ports, golden) =~= golden_placed(front, golden).push(
                PortView { golden: golden[ports.last().name].0, ..ports.last() },
            ));
        }
        if golden_fits(ports, golden) {
            assert forall|i: int| 0 <= i < front.len() implies golden.contains_key(
                (#[trigger] front[i]).name,
            ) && golden[front[i].name].1 == front[i].bytes by {
                assert(front[i] == ports[i]);
            }
            assert(ports[ports.len() - 1] == ports.last());
        }
    } else {
        assert(golden_placed(ports, golden) =~= ports);
    }
}

/// Records make a plan exactly where the format is the one that is read,
/// there are a device, inputs, outputs and launches, and every port has golden
/// data of its own length. The plan is what the records say, with the place of
/// the golden data in each port.
pub proof fn law_a_plan_is_complete(d: DraftView)
    ensures
        completed(d) is Ok <==> {
            &&& d.format == Some(FORMAT@)
            &&& d.plan.device_name.len() > 0
            &&& d.plan.inputs.len() > 0
            &&& d.plan.outputs.len() > 0
            &&& d.plan.launches.len() > 0
            &&& golden_fits(d.plan.inputs, d.golden_inputs)
            &&& golden_fits(d.plan.outputs, d.golden_outputs)
        },
        completed(d) matches Ok(p) ==> p == (PlanView {
            inputs: golden_placed(d.plan.inputs, d.golden_inputs),
            outputs: golden_placed(d.plan.outputs, d.golden_outputs),
            ..d.plan
        }),
{
    lemma_all_with_golden(d.plan.inputs, d.golden_inputs);
    lemma_all_with_golden(d.plan.outputs, d.golden_outputs);
}

} // verus!
