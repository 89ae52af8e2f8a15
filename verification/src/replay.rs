//! A recording that is ready: its inputs and outputs, its launches, and the
//! check against the recorded inference.

use vstd::prelude::*;
use vstd::set_lib::{lemma_int_range, set_int_range};
use vstd::slice::slice_subrange;

use crate::error::{Error, ErrorView};
use crate::layout::{
    fits_memory, inside, is_buffer, law_located_places_are_inside, lemma_slot_of, listed, located,
    plan_err, plan_error, sound, Buffer, Listed, Place, Slot, Slots,
};
use crate::plan::{LaunchPlan, LaunchView, Plan, PlanView, Port, PortView};
use crate::text::{lemma_views_push, same, views};
use crate::trace::{before, chain, does, lemma_chain_stays_stopped, stops, traces, Trace};

verus! {

broadcast use lemma_views_push;

/// The file with the recorded inference's inputs and outputs.
pub const GOLDEN_FILE: &'static str = "golden.bin";

/// The addresses that the buffers of a recording were given.
pub struct Addresses {
    pub weights: usize,
    pub scratch: Vec<usize>,
    pub host: Vec<usize>,
}

/// An `Addresses`, taken as sequences.
pub struct AddressesView {
    pub weights: usize,
    pub scratch: Seq<usize>,
    pub host: Seq<usize>,
}

impl View for Addresses {
    type V = AddressesView;

    open spec fn view(&self) -> AddressesView {
        AddressesView { weights: self.weights, scratch: self.scratch@, host: self.host@ }
    }
}

impl AddressesView {
    /// There is an address for each of the plan's buffers.
    pub open spec fn cover(self, p: PlanView) -> bool {
        self.scratch.len() == p.scratch.len() && self.host.len() == p.host.len()
    }

    /// The address of a place.
    pub open spec fn of(self, at: Place) -> int {
        at.off + match at.buffer {
            Buffer::Weights => self.weights as int,
            Buffer::Scratch(i) => self.scratch[i as int] as int,
            Buffer::Host(i) => self.host[i as int] as int,
        }
    }
}

/// An input or output, where it lies.
pub struct Io {
    pub name: String,
    pub place: Place,
    pub bytes: usize,
    pub element_type: String,
    /// Byte offset of its recorded contents in `golden.bin`.
    pub golden: usize,
}

/// An `Io`, its texts taken as sequences.
pub struct IoView {
    pub name: Seq<char>,
    pub place: Place,
    pub bytes: usize,
    pub element_type: Seq<char>,
    pub golden: usize,
}

/// The extent of a launch; its kernel is the one that was created for it.
#[derive(Clone, Copy, Debug)]
pub struct Launch {
    pub dim: u32,
    pub global: [usize; 3],
    pub local: [usize; 3],
    pub offset: [usize; 3],
}

/// A `Launch`, taken as sequences.
pub struct ExtentView {
    pub dim: u32,
    pub global: Seq<usize>,
    pub local: Seq<usize>,
    pub offset: Seq<usize>,
}

/// A loaded recording. Every kernel argument is bound, so a run is the input
/// copies, the launches, and a finish.
pub struct Replay {
    pub launches: Vec<Launch>,
    pub inputs: Vec<Io>,
    pub outputs: Vec<Io>,
}

/// A `Replay`, taken as sequences.
pub struct ReplayView {
    pub launches: Seq<ExtentView>,
    pub inputs: Seq<IoView>,
    pub outputs: Seq<IoView>,
}

impl View for Io {
    type V = IoView;

    open spec fn view(&self) -> IoView {
        IoView {
            name: self.name@,
            place: self.place,
            bytes: self.bytes,
            element_type: self.element_type@,
            golden: self.golden,
        }
    }
}

impl View for Launch {
    type V = ExtentView;

    open spec fn view(&self) -> ExtentView {
        ExtentView {
            dim: self.dim,
            global: self.global@,
            local: self.local@,
            offset: self.offset@,
        }
    }
}

impl View for Replay {
    type V = ReplayView;

    open spec fn view(&self) -> ReplayView {
        ReplayView {
            launches: views(self.launches@),
            inputs: views(self.inputs@),
            outputs: views(self.outputs@),
        }
    }
}

// ---------------------------------------------------------------- ports

/// Where a port lies. An output must be in host memory, and 32-bit floats on
/// an address that is a multiple of four, in whole numbers.
pub open spec fn resolved_port(
    l: Seq<Listed>,
    a: AddressesView,
    p: PortView,
    output: bool,
) -> Result<IoView, Seq<char>> {
    match located(l, p.alloc, p.off, p.bytes) {
        Err(m) => Err(m),
        Ok((slot, place)) => if output && !slot.host {
            Err("output "@ + p.name + " is not in host memory"@)
        } else if p.element_type == "f32"@ && (a.of(place) % 4 != 0 || p.bytes % 4 != 0) {
            Err("f32 port "@ + p.name + " is misaligned"@)
        } else {
            Ok(
                IoView {
                    name: p.name,
                    place,
                    bytes: p.bytes,
                    element_type: p.element_type,
                    golden: p.golden,
                },
            )
        },
    }
}

/// Where the ports lie, or what is wrong with the first that lies nowhere.
pub open spec fn resolved_ports(
    l: Seq<Listed>,
    a: AddressesView,
    ports: Seq<PortView>,
    output: bool,
) -> Result<Seq<IoView>, Seq<char>>
    decreases ports.len(),
{
    if ports.len() == 0 {
        Ok(seq![])
    } else {
        match resolved_ports(l, a, ports.drop_last(), output) {
            Err(m) => Err(m),
            Ok(done) => match resolved_port(l, a, ports.last(), output) {
                Err(m) => Err(m),
                Ok(io) => Ok(done.push(io)),
            },
        }
    }
}

pub open spec fn extent(l: LaunchView) -> ExtentView {
    ExtentView { dim: l.dim, global: l.global, local: l.local, offset: l.offset }
}

/// The replay of a plan whose buffers have these addresses, or what is wrong
/// with its ports.
pub open spec fn resolved(p: PlanView, a: AddressesView) -> Result<ReplayView, ErrorView> {
    match resolved_ports(listed(p), a, p.inputs, false) {
        Err(m) => Err(plan_error(m)),
        Ok(inputs) => match resolved_ports(listed(p), a, p.outputs, true) {
            Err(m) => Err(plan_error(m)),
            Ok(outputs) => Ok(
                ReplayView {
                    launches: p.launches.map_values(|l: LaunchView| extent(l)),
                    inputs,
                    outputs,
                },
            ),
        },
    }
}

proof fn lemma_resolved_ports_fail(
    l: Seq<Listed>,
    a: AddressesView,
    ports: Seq<PortView>,
    output: bool,
    k: int,
)
    requires
        0 <= k <= ports.len(),
        resolved_ports(l, a, ports.take(k), output) is Err,
    ensures
        resolved_ports(l, a, ports, output) == resolved_ports(l, a, ports.take(k), output),
    decreases ports.len(),
{
    if k == ports.len() {
        assert(ports.take(k) =~= ports);
    } else {
        assert(ports.drop_last().take(k) =~= ports.take(k));
        lemma_resolved_ports_fail(l, a, ports.drop_last(), output, k);
    }
}

/// There is one for each port, in order, and it lies where the port does.
proof fn lemma_resolved_ports(
    l: Seq<Listed>,
    a: AddressesView,
    ports: Seq<PortView>,
    output: bool,
)
    ensures
        resolved_ports(l, a, ports, output) matches Ok(ios) ==> ios.len() == ports.len() && forall|
            i: int,
        |
            0 <= i < ios.len() ==> resolved_port(l, a, ports[i], output) == Ok::<
                IoView,
                Seq<char>,
            >(#[trigger] ios[i]),
    decreases ports.len(),
{
    if ports.len() > 0 {
        lemma_resolved_ports(l, a, ports.drop_last(), output);
        if let Ok(ios) = resolved_ports(l, a, ports, output) {
            let done = resolved_ports(l, a, ports.drop_last(), output)->Ok_0;
            assert forall|i: int| 0 <= i < ios.len() implies resolved_port(l, a, ports[i], output)
                == Ok::<IoView, Seq<char>>(#[trigger] ios[i]) by {
                if i < done.len() {
                    assert(ios[i] == done[i]);
                    assert(ports.drop_last()[i] == ports[i]);
                }
            }
        }
    }
}

/// Whether an address is a multiple of four.
fn on_four(a: &Addresses, at: Place) -> (r: bool)
    requires
        match at.buffer {
            Buffer::Weights => true,
            Buffer::Scratch(i) => i < a.scratch@.len(),
            Buffer::Host(i) => i < a.host@.len(),
        },
    ensures
        r == (a@.of(at) % 4 == 0),
{
    let base: usize = match at.buffer {
        Buffer::Weights => a.weights,
        Buffer::Scratch(i) => a.scratch[i],
        Buffer::Host(i) => a.host[i],
    };
    (base % 4 + at.off % 4) % 4 == 0
}

fn resolve_port(
    plan: &Plan,
    slots: &Slots,
    a: &Addresses,
    p: &Port,
    output: bool,
) -> (r: Result<Io, String>)
    requires
        slots.valid(),
        slots@ == listed(plan@),
        a@.cover(plan@),
    ensures
        match r {
            Ok(io) => resolved_port(listed(plan@), a@, p@, output) == Ok::<IoView, Seq<char>>(io@),
            Err(m) => resolved_port(listed(plan@), a@, p@, output) == Err::<IoView, Seq<char>>(
                m@,
            ),
        },
{
    let (slot, place): (Slot, Place) = slots.locate(p.alloc, p.off, p.bytes)?;
    proof {
        let l = listed(plan@);
        lemma_slot_of(l, p.alloc);
        let i = choose|i: int|
            0 <= i < l.len() && (#[trigger] l[i]).id == p.alloc && l[i].slot == slot;
        assert(l[i].slot == slot);
        assert(plan.scratch.len() == plan.scratch@.len());
        assert(plan.host.len() == plan.host@.len());
        assert(is_buffer(plan@, place.buffer));
    }
    if output && !slot.host {
        let mut m: String = "output ".to_owned();
        m.append(p.name.as_str());
        m.append(" is not in host memory");
        return Err(m);
    }
    if same(p.element_type.as_str(), "f32") && (!on_four(a, place) || p.bytes % 4 != 0) {
        let mut m: String = "f32 port ".to_owned();
        m.append(p.name.as_str());
        m.append(" is misaligned");
        return Err(m);
    }
    Ok(
        Io {
            name: p.name.clone(),
            place,
            bytes: p.bytes,
            element_type: p.element_type.clone(),
            golden: p.golden,
        },
    )
}

fn resolve_ports(
    plan: &Plan,
    slots: &Slots,
    a: &Addresses,
    ports: &Vec<Port>,
    output: bool,
) -> (r: Result<Vec<Io>, Error>)
    requires
        slots.valid(),
        slots@ == listed(plan@),
        a@.cover(plan@),
    ensures
        match r {
            Ok(ios) => resolved_ports(listed(plan@), a@, views(ports@), output) == Ok::<
                Seq<IoView>,
                Seq<char>,
            >(views(ios@)),
            Err(e) => resolved_ports(listed(plan@), a@, views(ports@), output) matches Err(m)
                && e@ == plan_error(m),
        },
{
    let ghost l = listed(plan@);
    let ghost all = views(ports@);
    let n: usize = ports.len();
    let mut ios: Vec<Io> = Vec::new();
    let mut i: usize = 0;
    assert(all.take(0) =~= seq![]);
    assert(views(ios@) =~= seq![]);
    while i < n
        invariant
            i <= n,
            n == ports@.len(),
            slots.valid(),
            slots@ == l,
            l == listed(plan@),
            a@.cover(plan@),
            all == views(ports@),
            resolved_ports(l, a@, all.take(i as int), output) == Ok::<Seq<IoView>, Seq<char>>(
                views(ios@),
            ),
        decreases n - i,
    {
        proof {
            assert(all.take(i as int + 1).drop_last() =~= all.take(i as int));
            assert(all.take(i as int + 1).last() == ports@[i as int]@);
        }
        match resolve_port(plan, slots, a, &ports[i], output) {
            Ok(io) => {
                assert(resolved_ports(l, a@, all.take(i as int + 1), output) == Ok::<
                    Seq<IoView>,
                    Seq<char>,
                >(views(ios@).push(io@)));
                ios.push(io);
            },
            Err(m) => {
                proof {
                    lemma_resolved_ports_fail(l, a@, all, output, i as int + 1);
                }
                return Err(plan_err(m));
            },
        }
        i += 1;
    }
    assert(all.take(n as int) =~= all);
    Ok(ios)
}

impl Replay {
    /// The replay of a plan whose commands have been carried out, its buffers
    /// at these addresses.
    pub fn resolve(plan: &Plan, slots: &Slots, a: &Addresses) -> (r: Result<Self, Error>)
        requires
            slots.valid(),
            slots@ == listed(plan@),
            a@.cover(plan@),
        ensures
            match r {
                Ok(replay) => resolved(plan@, a@) == Ok::<ReplayView, ErrorView>(replay@),
                Err(e) => resolved(plan@, a@) == Err::<ReplayView, ErrorView>(e@),
            },
    {
        let inputs: Vec<Io> = resolve_ports(plan, slots, a, &plan.inputs, false)?;
        let outputs: Vec<Io> = resolve_ports(plan, slots, a, &plan.outputs, true)?;
        let ghost extents = plan@.launches.map_values(|l: LaunchView| extent(l));
        let mut launches: Vec<Launch> = Vec::new();
        let mut i: usize = 0;
        while i < plan.launches.len()
            invariant
                i <= plan.launches@.len(),
                extents == plan@.launches.map_values(|l: LaunchView| extent(l)),
                views(launches@) == extents.take(i as int),
            decreases plan.launches@.len() - i,
        {
            let l: &LaunchPlan = &plan.launches[i];
            assert(extents[i as int] == extent(l@));
            launches.push(
                Launch { dim: l.dim, global: l.global, local: l.local, offset: l.offset },
            );
            i += 1;
        }
        assert(extents.take(i as int) =~= extents);
        Ok(Replay { launches, inputs, outputs })
    }
}

// ---------------------------------------------------------------- runs

/// One thing to do for a run.
pub enum Order {
    /// Copy `golden.bin` from `from` up to `to` into an input.
    Write { input: usize, from: usize, to: usize },
    /// Enqueue a launch; without local sizes the device chooses them.
    Launch {
        launch: usize,
        dim: u32,
        offset: [usize; 3],
        global: [usize; 3],
        local: Option<[usize; 3]>,
    },
    /// Wait for all that was enqueued.
    Finish,
}

/// An `Order`, taken as sequences.
pub enum OrderView {
    Write { input: usize, from: usize, to: usize },
    Launch {
        launch: usize,
        dim: u32,
        offset: Seq<usize>,
        global: Seq<usize>,
        local: Option<Seq<usize>>,
    },
    Finish,
}

impl View for Order {
    type V = OrderView;

    open spec fn view(&self) -> OrderView {
        match self {
            Order::Write { input, from, to } => OrderView::Write {
                input: *input,
                from: *from,
                to: *to,
            },
            Order::Launch { launch, dim, offset, global, local } => OrderView::Launch {
                launch: *launch,
                dim: *dim,
                offset: offset@,
                global: global@,
                local: match local {
                    Some(l) => Some(l@),
                    None => None,
                },
            },
            Order::Finish => OrderView::Finish,
        }
    }
}

/// Enqueue launch `i`. A recorded first local size of 0 stands for none.
pub open spec fn launch_order(launches: Seq<ExtentView>, i: int) -> OrderView {
    OrderView::Launch {
        launch: i as usize,
        dim: launches[i].dim,
        offset: launches[i].offset,
        global: launches[i].global,
        local: if launches[i].local[0] == 0 {
            None
        } else {
            Some(launches[i].local)
        },
    }
}

/// A run: every launch once, in the recorded order, and then a finish.
pub open spec fn run_orders(r: ReplayView) -> Seq<OrderView> {
    Seq::new(r.launches.len(), |i: int| launch_order(r.launches, i)).push(OrderView::Finish)
}

/// The recorded contents of a port, if the file has all of them.
pub open spec fn recorded(io: IoView, golden: Seq<u8>) -> Option<Seq<u8>> {
    if io.golden + io.bytes <= golden.len() {
        Some(golden.subrange(io.golden as int, io.golden + io.bytes))
    } else {
        None
    }
}

pub open spec fn too_short(io: IoView) -> ErrorView {
    ErrorView::Parse { path: GOLDEN_FILE@, message: "too short for "@ + io.name }
}

/// Write the recorded contents of input `i`.
pub open spec fn golden_write(inputs: Seq<IoView>, golden: Seq<u8>, i: int) -> Trace<OrderView> {
    let io = inputs[i];
    if recorded(io, golden) is None {
        stops(too_short(io))
    } else {
        does(
            seq![
                OrderView::Write {
                    input: i as usize,
                    from: io.golden,
                    to: (io.golden + io.bytes) as usize,
                },
            ],
        )
    }
}

pub open spec fn golden_writes(inputs: Seq<IoView>, golden: Seq<u8>) -> spec_fn(int) -> Trace<
    OrderView,
> {
    |i: int| golden_write(inputs, golden, i)
}

/// Replay the recorded inference: write every input, then run.
pub open spec fn verifying(r: ReplayView, golden: Seq<u8>) -> Trace<OrderView> {
    before(
        chain(golden_writes(r.inputs, golden), r.inputs.len()),
        does(run_orders(r)),
    )
}

/// In how many places two rows of bytes differ, as far as both go.
pub open spec fn differing(a: Seq<u8>, b: Seq<u8>, n: int) -> int
    decreases n,
{
    if n <= 0 {
        0
    } else {
        differing(a, b, n - 1) + if a[n - 1] != b[n - 1] {
            1int
        } else {
            0int
        }
    }
}

pub open spec fn shorter(a: Seq<u8>, b: Seq<u8>) -> int {
    if a.len() <= b.len() {
        a.len() as int
    } else {
        b.len() as int
    }
}

/// What is wrong with an output that came out as `got`: it must be what was
/// recorded, bit for bit.
pub open spec fn output_fault(o: IoView, golden: Seq<u8>, got: Seq<u8>) -> Option<ErrorView> {
    match recorded(o, golden) {
        None => Some(too_short(o)),
        Some(want) => if got == want {
            None
        } else {
            Some(
                ErrorView::GoldenMismatch {
                    output: o.name,
                    differing: differing(got, want, shorter(got, want)) as usize,
                    bytes: o.bytes,
                },
            )
        },
    }
}

/// What is wrong with the first of `n` outputs that is not as recorded.
pub open spec fn outputs_fault(
    outputs: Seq<IoView>,
    golden: Seq<u8>,
    got: Seq<Seq<u8>>,
    n: int,
) -> Option<ErrorView>
    decreases n,
{
    if n <= 0 {
        None
    } else {
        match outputs_fault(outputs, golden, got, n - 1) {
            Some(e) => Some(e),
            None => output_fault(outputs[n - 1], golden, got[n - 1]),
        }
    }
}

proof fn lemma_outputs_fault_stays(
    outputs: Seq<IoView>,
    golden: Seq<u8>,
    got: Seq<Seq<u8>>,
    k: int,
    n: int,
)
    requires
        k <= n,
        outputs_fault(outputs, golden, got, k) is Some,
    ensures
        outputs_fault(outputs, golden, got, n) == outputs_fault(outputs, golden, got, k),
    decreases n - k,
{
    if k < n {
        lemma_outputs_fault_stays(outputs, golden, got, k, n - 1);
    }
}

/// The first port of this name.
pub open spec fn first_named(ios: Seq<IoView>, name: Seq<char>) -> Option<int>
    decreases ios.len(),
{
    if ios.len() == 0 {
        None
    } else {
        match first_named(ios.drop_last(), name) {
            Some(i) => Some(i),
            None => if ios.last().name == name {
                Some(ios.len() - 1)
            } else {
                None
            },
        }
    }
}

proof fn lemma_first_named(ios: Seq<IoView>, name: Seq<char>, k: int)
    requires
        0 <= k <= ios.len(),
        forall|i: int| 0 <= i < k ==> (#[trigger] ios[i]).name != name,
        k < ios.len() ==> ios[k].name == name,
    ensures
        first_named(ios, name) == if k < ios.len() {
            Some(k)
        } else {
            None
        },
    decreases ios.len(),
{
    if ios.len() > 0 {
        let p = ios.drop_last();
        assert forall|i: int| 0 <= i < k && i < p.len() implies (#[trigger] p[i]).name
            != name by {
            assert(p[i] == ios[i]);
        }
        if k == ios.len() {
            assert(ios[k - 1].name != name);
            lemma_first_named(p, name, k - 1);
        } else {
            if k < p.len() {
                assert(p[k] == ios[k]);
            }
            lemma_first_named(p, name, k);
        }
    }
}

fn find(ios: &Vec<Io>, name: &str) -> (r: Option<usize>)
    ensures
        match r {
            Some(i) => i < ios@.len() && first_named(views(ios@), name@) == Some(i as int)
                && ios@[i as int].name@ == name@,
            None => first_named(views(ios@), name@) is None,
        },
{
    let mut i: usize = 0;
    while i < ios.len()
        invariant
            i <= ios@.len(),
            forall|j: int| 0 <= j < i ==> (#[trigger] ios@[j]).name@ != name@,
        decreases ios@.len() - i,
    {
        if same(ios[i].name.as_str(), name) {
            proof {
                lemma_first_named(views(ios@), name@, i as int);
            }
            return Some(i);
        }
        i += 1;
    }
    proof {
        lemma_first_named(views(ios@), name@, i as int);
    }
    None
}

/// Whether two rows of bytes are the same.
fn same_bytes(a: &[u8], b: &[u8]) -> (r: bool)
    ensures
        r == (a@ == b@),
{
    if a.len() != b.len() {
        return false;
    }
    let mut i: usize = 0;
    while i < a.len()
        invariant
            a@.len() == b@.len(),
            i <= a@.len(),
            forall|j: int| 0 <= j < i ==> a@[j] == b@[j],
        decreases a@.len() - i,
    {
        if a[i] != b[i] {
            return false;
        }
        i += 1;
    }
    assert(a@ =~= b@);
    true
}

/// In how many places two rows of bytes differ, as far as both go.
pub fn count_differing(a: &[u8], b: &[u8]) -> (r: usize)
    ensures
        r == differing(a@, b@, shorter(a@, b@)),
{
    let n: usize = if a.len() <= b.len() {
        a.len()
    } else {
        b.len()
    };
    let mut count: usize = 0;
    let mut i: usize = 0;
    while i < n
        invariant
            i <= n,
            n == shorter(a@, b@),
            count <= i,
            count == differing(a@, b@, i as int),
        decreases n - i,
    {
        if a[i] != b[i] {
            count += 1;
        }
        i += 1;
    }
    count
}

/// A stretch of an output that can be read after a run.
#[derive(Clone, Copy, Debug)]
pub struct Window {
    pub place: Place,
    pub bytes: usize,
}

impl Replay {
    /// Names and byte sizes of the inputs.
    pub fn inputs(&self) -> (r: Vec<(String, usize)>)
        ensures
            r@.len() == self@.inputs.len(),
            forall|i: int|
                0 <= i < r@.len() ==> (#[trigger] r@[i]).0@ == self@.inputs[i].name && r@[i].1
                    == self@.inputs[i].bytes,
    {
        let mut out: Vec<(String, usize)> = Vec::new();
        let mut i: usize = 0;
        while i < self.inputs.len()
            invariant
                i <= self.inputs@.len(),
                out@.len() == i,
                forall|j: int|
                    0 <= j < i ==> (#[trigger] out@[j]).0@ == self@.inputs[j].name && out@[j].1
                        == self@.inputs[j].bytes,
            decreases self.inputs@.len() - i,
        {
            out.push((self.inputs[i].name.clone(), self.inputs[i].bytes));
            i += 1;
        }
        out
    }

    /// Names, byte sizes and element types of the outputs.
    pub fn outputs(&self) -> (r: Vec<(String, usize, String)>)
        ensures
            r@.len() == self@.outputs.len(),
            forall|i: int|
                0 <= i < r@.len() ==> (#[trigger] r@[i]).0@ == self@.outputs[i].name && r@[i].1
                    == self@.outputs[i].bytes && r@[i].2@ == self@.outputs[i].element_type,
    {
        let mut out: Vec<(String, usize, String)> = Vec::new();
        let mut i: usize = 0;
        while i < self.outputs.len()
            invariant
                i <= self.outputs@.len(),
                out@.len() == i,
                forall|j: int|
                    0 <= j < i ==> (#[trigger] out@[j]).0@ == self@.outputs[j].name && out@[j].1
                        == self@.outputs[j].bytes && out@[j].2@ == self@.outputs[j].element_type,
            decreases self.outputs@.len() - i,
        {
            out.push(
                (
                    self.outputs[i].name.clone(),
                    self.outputs[i].bytes,
                    self.outputs[i].element_type.clone(),
                ),
            );
            i += 1;
        }
        out
    }

    /// Where `data` goes as input `name`, which must be its exact byte size.
    pub fn set_input(&self, name: &str, data: &[u8]) -> (r: Result<Place, Error>)
        ensures
            match first_named(self@.inputs, name@) {
                None => r matches Err(e) && e@ == ErrorView::NoInput(name@),
                Some(i) => if data@.len() != self@.inputs[i].bytes {
                    r matches Err(e) && e@ == (ErrorView::InputSize {
                        name: name@,
                        expected: self@.inputs[i].bytes,
                        got: data@.len() as usize,
                    })
                } else {
                    r == Ok::<Place, Error>(self@.inputs[i].place)
                },
            },
    {
        match find(&self.inputs, name) {
            None => Err(Error::NoInput(name.to_owned())),
            Some(i) => {
                let input: &Io = &self.inputs[i];
                if data.len() != input.bytes {
                    Err(
                        Error::InputSize {
                            name: input.name.clone(),
                            expected: input.bytes,
                            got: data.len(),
                        },
                    )
                } else {
                    Ok(input.place)
                }
            },
        }
    }

    /// The orders of a run: the recorded launches, and the wait for them.
    pub fn run(&self) -> (r: Vec<Order>)
        ensures
            views(r@) == run_orders(self@),
    {
        let ghost all = run_orders(self@);
        let mut out: Vec<Order> = Vec::new();
        let mut i: usize = 0;
        assert(all.take(0) =~= seq![]);
        assert(views(out@) =~= seq![]);
        while i < self.launches.len()
            invariant
                i <= self.launches@.len(),
                all == run_orders(self@),
                views(out@) == all.take(i as int),
            decreases self.launches@.len() - i,
        {
            let l: Launch = self.launches[i];
            let local: Option<[usize; 3]> = if l.local[0] == 0 {
                None
            } else {
                Some(l.local)
            };
            let order: Order = Order::Launch {
                launch: i,
                dim: l.dim,
                offset: l.offset,
                global: l.global,
                local,
            };
            assert(order@ == launch_order(self@.launches, i as int));
            assert(all.take(i as int).push(order@) =~= all.take(i as int + 1));
            out.push(order);
            i += 1;
        }
        assert(all.take(i as int).push(OrderView::Finish) =~= all);
        out.push(Order::Finish);
        out
    }

    fn write_golden(&self, golden: &[u8], orders: &mut Vec<Order>) -> (r: Result<(), Error>)
        ensures
            traces(
                old(orders)@,
                final(orders)@,
                r,
                chain(golden_writes(self@.inputs, golden@), self@.inputs.len()),
            ),
    {
        let ghost start = orders@;
        let ghost f = golden_writes(self@.inputs, golden@);
        let n: usize = self.inputs.len();
        let mut i: usize = 0;
        assert(views(start) + chain(f, 0).commands =~= views(start));
        while i < n
            invariant
                i <= n,
                n == self.inputs@.len(),
                start == old(orders)@,
                f == golden_writes(self@.inputs, golden@),
                chain(f, i as nat).stop is None,
                views(orders@) == views(start) + chain(f, i as nat).commands,
            decreases n - i,
        {
            let io: &Io = &self.inputs[i];
            proof {
                assert(self@.inputs[i as int] == io@);
                assert(f(i as int) == golden_write(self@.inputs, golden@, i as int));
                assert(chain(f, i as nat + 1) == before(chain(f, i as nat), f(i as int)));
            }
            if io.golden > golden.len() || io.bytes > golden.len() - io.golden {
                let mut m: String = "too short for ".to_owned();
                m.append(io.name.as_str());
                proof {
                    lemma_chain_stays_stopped(f, i as nat + 1, n as nat);
                    assert(chain(f, i as nat + 1).commands =~= chain(f, i as nat).commands);
                }
                return Err(Error::Parse { path: GOLDEN_FILE.to_owned(), message: m });
            }
            let order: Order = Order::Write {
                input: i,
                from: io.golden,
                to: io.golden + io.bytes,
            };
            proof {
                assert(f(i as int) == does(seq![order@]));
                assert(views(start) + (chain(f, i as nat).commands + seq![order@]) =~= (views(
                    start,
                ) + chain(f, i as nat).commands).push(order@));
            }
            orders.push(order);
            i += 1;
        }
        Ok(())
    }

    /// The orders that replay the recorded inference, and the error that
    /// stops behind them, if one does. Overwrites every input and output.
    pub fn verify(&self, golden: &[u8]) -> (r: (Vec<Order>, Result<(), Error>))
        ensures
            traces(Seq::<Order>::empty(), r.0@, r.1, verifying(self@, golden@)),
            views(r.0@) == verifying(self@, golden@).commands,
            match r.1 {
                Ok(_) => verifying(self@, golden@).stop is None,
                Err(e) => verifying(self@, golden@).stop == Some(e@),
            },
    {
        let mut orders: Vec<Order> = Vec::new();
        assert(views(Seq::<Order>::empty()) =~= Seq::<OrderView>::empty());
        if let Err(e) = self.write_golden(golden, &mut orders) {
            assert(views(orders@) =~= verifying(self@, golden@).commands);
            return (orders, Err(e));
        }
        let ghost so_far = orders@;
        let mut run: Vec<Order> = self.run();
        let ghost ran = run@;
        orders.append(&mut run);
        proof {
            assert(views(so_far + ran) =~= views(so_far) + views(ran));
            assert(views(orders@) =~= views(Seq::<Order>::empty()) + verifying(
                self@,
                golden@,
            ).commands);
        }
        (orders, Ok(()))
    }

    /// Whether the outputs came out as they were recorded, bit for bit: the
    /// first that did not is the error.
    pub fn check_outputs(&self, golden: &[u8], got: &Vec<Vec<u8>>) -> (r: Result<(), Error>)
        requires
            got@.len() == self@.outputs.len(),
        ensures
            match r {
                Ok(_) => outputs_fault(
                    self@.outputs,
                    golden@,
                    views(got@),
                    self@.outputs.len() as int,
                ) is None,
                Err(e) => outputs_fault(
                    self@.outputs,
                    golden@,
                    views(got@),
                    self@.outputs.len() as int,
                ) == Some(e@),
            },
    {
        let n: usize = self.outputs.len();
        let ghost gots = views(got@);
        let mut i: usize = 0;
        while i < n
            invariant
                i <= n,
                n == self.outputs@.len(),
                got@.len() == n,
                gots == views(got@),
                outputs_fault(self@.outputs, golden@, gots, i as int) is None,
            decreases n - i,
        {
            let o: &Io = &self.outputs[i];
            let bytes: &[u8] = got[i].as_slice();
            proof {
                assert(self@.outputs[i as int] == o@);
                assert(gots[i as int] == bytes@);
                if output_fault(o@, golden@, bytes@) is Some {
                    lemma_outputs_fault_stays(
                        self@.outputs,
                        golden@,
                        gots,
                        i as int + 1,
                        n as int,
                    );
                }
            }
            if o.golden > golden.len() || o.bytes > golden.len() - o.golden {
                let mut m: String = "too short for ".to_owned();
                m.append(o.name.as_str());
                return Err(Error::Parse { path: GOLDEN_FILE.to_owned(), message: m });
            }
            let want: &[u8] = slice_subrange(golden, o.golden, o.golden + o.bytes);
            if !same_bytes(bytes, want) {
                return Err(
                    Error::GoldenMismatch {
                        output: o.name.clone(),
                        differing: count_differing(bytes, want),
                        bytes: o.bytes,
                    },
                );
            }
            i += 1;
        }
        Ok(())
    }

    /// Output `name` as raw bytes, valid until the next run.
    pub fn output(&self, name: &str) -> (r: Result<Window, Error>)
        ensures
            match first_named(self@.outputs, name@) {
                None => r matches Err(e) && e@ == ErrorView::NoOutput(name@),
                Some(i) => r == Ok::<Window, Error>(
                    Window { place: self@.outputs[i].place, bytes: self@.outputs[i].bytes },
                ),
            },
    {
        match find(&self.outputs, name) {
            None => Err(Error::NoOutput(name.to_owned())),
            Some(i) => Ok(
                Window { place: self.outputs[i].place, bytes: self.outputs[i].bytes },
            ),
        }
    }

    /// Where the 32-bit floats of output `name` begin, and how many there are.
    pub fn output_f32(&self, name: &str) -> (r: Result<(Place, usize), Error>)
        ensures
            match first_named(self@.outputs, name@) {
                None => r matches Err(e) && e@ == ErrorView::NoOutput(name@),
                Some(i) => if self@.outputs[i].element_type != "f32"@ {
                    r matches Err(e) && e@ == (ErrorView::OutputType {
                        name: name@,
                        element_type: self@.outputs[i].element_type,
                        wanted: "f32"@,
                    })
                } else {
                    r == Ok::<(Place, usize), Error>(
                        (self@.outputs[i].place, self@.outputs[i].bytes / 4),
                    )
                },
            },
    {
        match find(&self.outputs, name) {
            None => Err(Error::NoOutput(name.to_owned())),
            Some(i) => {
                let o: &Io = &self.outputs[i];
                if !same(o.element_type.as_str(), "f32") {
                    Err(
                        Error::OutputType {
                            name: name.to_owned(),
                            element_type: o.element_type.clone(),
                            wanted: "f32",
                        },
                    )
                } else {
                    Ok((o.place, o.bytes / 4))
                }
            },
        }
    }
}

// ---------------------------------------------------------------- laws

/// A port of a replay is the plan's port of the same place in the list, and
/// all its bytes lie inside one buffer. Outputs lie in host memory, and a port
/// of 32-bit floats on a multiple of four, in whole numbers.
pub proof fn law_ports_are_inside(
    p: PlanView,
    weights_len: usize,
    a: AddressesView,
    r: ReplayView,
    output: bool,
    i: int,
)
    requires
        fits_memory(p),
        sound(listed(p), weights_len, listed(p).len() as int),
        resolved(p, a) == Ok::<ReplayView, ErrorView>(r),
        0 <= i < (if output {
            r.outputs
        } else {
            r.inputs
        }).len(),
    ensures
        ({
            let io = if output {
                r.outputs[i]
            } else {
                r.inputs[i]
            };
            let port = if output {
                p.outputs[i]
            } else {
                p.inputs[i]
            };
            &&& r.inputs.len() == p.inputs.len()
            &&& r.outputs.len() == p.outputs.len()
            &&& io.name == port.name
            &&& io.bytes == port.bytes
            &&& io.element_type == port.element_type
            &&& io.golden == port.golden
            &&& inside(p, weights_len, io.place, io.bytes as int)
            &&& output ==> io.place.buffer is Host
            &&& io.element_type == "f32"@ ==> a.of(io.place) % 4 == 0 && io.bytes % 4 == 0
        }),
{
    let l = listed(p);
    lemma_resolved_ports(l, a, p.inputs, false);
    lemma_resolved_ports(l, a, p.outputs, true);
    let port = if output {
        p.outputs[i]
    } else {
        p.inputs[i]
    };
    let io = if output {
        r.outputs[i]
    } else {
        r.inputs[i]
    };
    assert(resolved_port(l, a, port, output) == Ok::<IoView, Seq<char>>(io));
    law_located_places_are_inside(p, weights_len, port.alloc, port.off, port.bytes);
}

/// The check passes exactly where every output is, bit for bit, what was
/// recorded for it.
pub proof fn law_verified_outputs_are_identical(
    outputs: Seq<IoView>,
    golden: Seq<u8>,
    got: Seq<Seq<u8>>,
    n: int,
)
    requires
        0 <= n <= outputs.len(),
        got.len() == outputs.len(),
    ensures
        outputs_fault(outputs, golden, got, n) is None <==> forall|i: int|
            0 <= i < n ==> recorded(outputs[i], golden) == Some(#[trigger] got[i]),
    decreases n,
{
    if n > 0 {
        law_verified_outputs_are_identical(outputs, golden, got, n - 1);
        if outputs_fault(outputs, golden, got, n) is None {
            assert forall|i: int| 0 <= i < n implies recorded(outputs[i], golden) == Some(
                #[trigger] got[i],
            ) by {
                if i == n - 1 {
                    assert(output_fault(outputs[i], golden, got[i]) is None);
                }
            }
        } else if forall|i: int|
            0 <= i < n ==> recorded(outputs[i], golden) == Some(#[trigger] got[i]) {
            assert(recorded(outputs[n - 1], golden) == Some(got[n - 1]));
        }
    }
}

/// What is wrong with the outputs is what is wrong with the first of them
/// that is not as recorded.
pub proof fn law_the_first_mismatch_is_the_error(
    outputs: Seq<IoView>,
    golden: Seq<u8>,
    got: Seq<Seq<u8>>,
    k: int,
)
    requires
        got.len() == outputs.len(),
        0 <= k < outputs.len(),
        forall|i: int| 0 <= i < k ==> recorded(outputs[i], golden) == Some(#[trigger] got[i]),
        recorded(outputs[k], golden) != Some(got[k]),
    ensures
        output_fault(outputs[k], golden, got[k]) is Some,
        outputs_fault(outputs, golden, got, outputs.len() as int) == output_fault(
            outputs[k],
            golden,
            got[k],
        ),
{
    law_verified_outputs_are_identical(outputs, golden, got, k);
    assert(outputs_fault(outputs, golden, got, k + 1) == output_fault(
        outputs[k],
        golden,
        got[k],
    ));
    lemma_outputs_fault_stays(outputs, golden, got, k + 1, outputs.len() as int);
}

/// A name means the first port that has it, and nothing where none has.
pub proof fn law_a_name_means_the_first_port(ios: Seq<IoView>, name: Seq<char>)
    ensures
        match first_named(ios, name) {
            Some(k) => 0 <= k < ios.len() && ios[k].name == name && forall|i: int|
                0 <= i < k ==> (#[trigger] ios[i]).name != name,
            None => forall|i: int| 0 <= i < ios.len() ==> (#[trigger] ios[i]).name != name,
        },
    decreases ios.len(),
{
    if ios.len() > 0 {
        let front = ios.drop_last();
        law_a_name_means_the_first_port(front, name);
        match first_named(front, name) {
            Some(k) => {
                assert(front[k] == ios[k]);
                assert forall|i: int| 0 <= i < k implies (#[trigger] ios[i]).name != name by {
                    assert(front[i] == ios[i]);
                }
            },
            None => {
                assert forall|i: int| 0 <= i < front.len() implies (#[trigger] ios[i]).name
                    != name by {
                    assert(front[i] == ios[i]);
                }
            },
        }
    }
}

/// An output that is not what was recorded differs from it in at least one
/// byte, and in no more than it has.
pub proof fn law_a_mismatch_is_counted(a: Seq<u8>, b: Seq<u8>)
    requires
        a.len() == b.len(),
    ensures
        0 <= differing(a, b, a.len() as int) <= a.len(),
        a != b <==> differing(a, b, a.len() as int) >= 1,
{
    lemma_differing(a, b, a.len() as int);
    if differing(a, b, a.len() as int) == 0 {
        assert(a =~= b);
    }
}

proof fn lemma_differing(a: Seq<u8>, b: Seq<u8>, n: int)
    requires
        0 <= n <= a.len(),
        n <= b.len(),
    ensures
        0 <= differing(a, b, n) <= n,
        differing(a, b, n) == 0 <==> forall|i: int| 0 <= i < n ==> a[i] == b[i],
    decreases n,
{
    if n > 0 {
        lemma_differing(a, b, n - 1);
    }
}

/// Where the recorded inference can be replayed, `golden.bin` holds every
/// input, and the orders begin with the write of each, in order and whole.
pub proof fn law_every_input_is_written(r: ReplayView, golden: Seq<u8>)
    requires
        verifying(r, golden).stop is None,
    ensures
        verifying(r, golden).commands.len() == r.inputs.len() + r.launches.len() + 1,
        forall|i: int|
            0 <= i < r.inputs.len() ==> r.inputs[i].golden + r.inputs[i].bytes <= golden.len()
                && #[trigger] verifying(r, golden).commands[i] == (OrderView::Write {
                input: i as usize,
                from: r.inputs[i].golden,
                to: (r.inputs[i].golden + r.inputs[i].bytes) as usize,
            }),
{
    lemma_golden_writes(r.inputs, golden, r.inputs.len());
}

proof fn lemma_golden_writes(inputs: Seq<IoView>, golden: Seq<u8>, n: nat)
    requires
        n <= inputs.len(),
        chain(golden_writes(inputs, golden), n).stop is None,
    ensures
        chain(golden_writes(inputs, golden), n).commands.len() == n,
        forall|i: int|
            0 <= i < n ==> inputs[i].golden + inputs[i].bytes <= golden.len() && (
            #[trigger] chain(golden_writes(inputs, golden), n).commands[i]) == (OrderView::Write {
                input: i as usize,
                from: inputs[i].golden,
                to: (inputs[i].golden + inputs[i].bytes) as usize,
            }),
    decreases n,
{
    if n > 0 {
        lemma_golden_writes(inputs, golden, (n - 1) as nat);
        let f = golden_writes(inputs, golden);
        assert(f(n - 1) == golden_write(inputs, golden, n - 1));
        let a = chain(f, (n - 1) as nat).commands;
        assert forall|i: int| 0 <= i < n implies inputs[i].golden + inputs[i].bytes <= golden.len()
            && (#[trigger] chain(f, n).commands[i]) == (OrderView::Write {
            input: i as usize,
            from: inputs[i].golden,
            to: (inputs[i].golden + inputs[i].bytes) as usize,
        }) by {
            if i < n - 1 {
                assert(chain(f, n).commands[i] == a[i]);
            }
        }
    }
}

/// Nothing of a port is lost in its view.
pub proof fn law_ios_are_seen_whole(io: Io)
    ensures
        io@.name == io.name@,
        io@.place == io.place,
        io@.bytes == io.bytes,
        io@.element_type == io.element_type@,
        io@.golden == io.golden,
{
}

/// Nothing of a recording is lost in its view.
pub proof fn law_replays_are_seen_whole(r: Replay)
    ensures
        r@.inputs.len() == r.inputs@.len(),
        forall|i: int| 0 <= i < r.inputs@.len() ==> #[trigger] r@.inputs[i] == r.inputs@[i]@,
        r@.outputs.len() == r.outputs@.len(),
        forall|i: int| 0 <= i < r.outputs@.len() ==> #[trigger] r@.outputs[i] == r.outputs@[i]@,
        r@.launches.len() == r.launches@.len(),
        forall|i: int|
            0 <= i < r.launches@.len() ==> #[trigger] r@.launches[i] == (ExtentView {
                dim: r.launches@[i].dim,
                global: r.launches@[i].global@,
                local: r.launches@[i].local@,
                offset: r.launches@[i].offset@,
            }),
{
}

/// Nothing of an order is lost in its view.
pub proof fn law_orders_are_seen_whole(o: Order)
    ensures
        match o {
            Order::Write { input, from, to } => o@ == (OrderView::Write { input, from, to }),
            Order::Launch { launch, dim, offset, global, local } => o@ matches OrderView::Launch {
                launch: l,
                dim: d,
                offset: f,
                global: g,
                local: s,
            } && l == launch && d == dim && f == offset@ && g == global@ && match local {
                Some(sizes) => s == Some(sizes@),
                None => s is None,
            },
            Order::Finish => o@ == OrderView::Finish,
        },
{
}

/// The address of a place is that of its buffer, and so many bytes more.
pub proof fn law_addresses_are_counted_from_the_buffer(a: Addresses, off: usize, i: usize)
    ensures
        a@.of(Place { buffer: Buffer::Weights, off }) == a.weights + off,
        i < a.scratch@.len() ==> a@.of(Place { buffer: Buffer::Scratch(i), off })
            == a.scratch@[i as int] + off,
        i < a.host@.len() ==> a@.of(Place { buffer: Buffer::Host(i), off }) == a.host@[i as int]
            + off,
{
}

/// A run is one order for each launch, in the recorded order, and then the
/// wait, which comes nowhere else. Each launch is enqueued with its recorded
/// dimension, global sizes and offsets, and with its recorded local sizes
/// unless the first of them is 0: then with none.
pub proof fn law_a_run_is_every_launch_as_recorded(r: ReplayView)
    requires
        r.launches.len() <= usize::MAX,
    ensures
        run_orders(r).len() == r.launches.len() + 1,
        run_orders(r).last() == OrderView::Finish,
        forall|i: int| #![trigger run_orders(r)[i]]
            0 <= i < r.launches.len() ==> {
                &&& run_orders(r)[i] matches OrderView::Launch {
                    launch,
                    dim,
                    offset,
                    global,
                    local,
                }
                &&& launch == i
                &&& dim == r.launches[i].dim
                &&& offset == r.launches[i].offset
                &&& global == r.launches[i].global
                &&& r.launches[i].local[0] != 0 ==> local == Some(r.launches[i].local)
                &&& r.launches[i].local[0] == 0 ==> local is None
            },
{
}

proof fn lemma_ports_hold(
    l: Seq<Listed>,
    a: AddressesView,
    ports: Seq<PortView>,
    output: bool,
    n: int,
)
    requires
        0 <= n <= ports.len(),
        forall|i: int| 0 <= i < n ==> resolved_port(l, a, #[trigger] ports[i], output) is Ok,
    ensures
        resolved_ports(l, a, ports.take(n), output) is Ok,
    decreases n,
{
    if n > 0 {
        lemma_ports_hold(l, a, ports, output, n - 1);
        assert(ports.take(n).drop_last() =~= ports.take(n - 1));
        assert(ports.take(n).last() == ports[n - 1]);
    }
}

proof fn lemma_ports_fail(
    l: Seq<Listed>,
    a: AddressesView,
    ports: Seq<PortView>,
    output: bool,
    k: int,
    n: int,
)
    requires
        0 <= k < n <= ports.len(),
        forall|i: int| 0 <= i < k ==> resolved_port(l, a, #[trigger] ports[i], output) is Ok,
        resolved_port(l, a, ports[k], output) is Err,
    ensures
        resolved_ports(l, a, ports.take(n), output) == Err::<Seq<IoView>, Seq<char>>(
            resolved_port(l, a, ports[k], output)->Err_0,
        ),
    decreases n,
{
    assert(ports.take(n).drop_last() =~= ports.take(n - 1));
    assert(ports.take(n).last() == ports[n - 1]);
    if k < n - 1 {
        lemma_ports_fail(l, a, ports, output, k, n - 1);
    } else {
        lemma_ports_hold(l, a, ports, output, k);
    }
}

/// A plan whose ports all lie inside their allocations, outputs in host memory
/// and floats on multiples of four, has a replay. Its ports are the plan's, in
/// order, each at the place that its allocation and its offset give, with its
/// name, its size, its element type and the place of its golden data; and its
/// launches have the plan's sizes.
pub proof fn law_ports_and_launches_are_the_plans(p: PlanView, a: AddressesView)
    requires
        forall|i: int| #![trigger p.inputs[i]]
            0 <= i < p.inputs.len() ==> {
                let port = p.inputs[i];
                &&& located(listed(p), port.alloc, port.off, port.bytes) matches Ok((_, at))
                &&& port.element_type == "f32"@ ==> a.of(at) % 4 == 0 && port.bytes % 4 == 0
            },
        forall|i: int| #![trigger p.outputs[i]]
            0 <= i < p.outputs.len() ==> {
                let port = p.outputs[i];
                &&& located(listed(p), port.alloc, port.off, port.bytes) matches Ok((slot, at))
                &&& slot.host
                &&& port.element_type == "f32"@ ==> a.of(at) % 4 == 0 && port.bytes % 4 == 0
            },
    ensures
        resolved(p, a) matches Ok(r) && {
            &&& r.inputs.len() == p.inputs.len()
            &&& forall|i: int| #![trigger r.inputs[i]]
                0 <= i < r.inputs.len() ==> {
                    let port = p.inputs[i];
                    r.inputs[i] == (IoView {
                        name: port.name,
                        place: located(listed(p), port.alloc, port.off, port.bytes)->Ok_0.1,
                        bytes: port.bytes,
                        element_type: port.element_type,
                        golden: port.golden,
                    })
                }
            &&& r.outputs.len() == p.outputs.len()
            &&& forall|i: int| #![trigger r.outputs[i]]
                0 <= i < r.outputs.len() ==> {
                    let port = p.outputs[i];
                    r.outputs[i] == (IoView {
                        name: port.name,
                        place: located(listed(p), port.alloc, port.off, port.bytes)->Ok_0.1,
                        bytes: port.bytes,
                        element_type: port.element_type,
                        golden: port.golden,
                    })
                }
            &&& r.launches.len() == p.launches.len()
            &&& forall|i: int| #![trigger r.launches[i]]
                0 <= i < r.launches.len() ==> r.launches[i] == (ExtentView {
                    dim: p.launches[i].dim,
                    global: p.launches[i].global,
                    local: p.launches[i].local,
                    offset: p.launches[i].offset,
                })
        },
{
    let l = listed(p);
    assert forall|i: int| 0 <= i < p.inputs.len() implies resolved_port(
        l,
        a,
        #[trigger] p.inputs[i],
        false,
    ) is Ok by {}
    assert forall|i: int| 0 <= i < p.outputs.len() implies resolved_port(
        l,
        a,
        #[trigger] p.outputs[i],
        true,
    ) is Ok by {}
    lemma_ports_hold(l, a, p.inputs, false, p.inputs.len() as int);
    lemma_ports_hold(l, a, p.outputs, true, p.outputs.len() as int);
    assert(p.inputs.take(p.inputs.len() as int) =~= p.inputs);
    assert(p.outputs.take(p.outputs.len() as int) =~= p.outputs);
    lemma_resolved_ports(l, a, p.inputs, false);
    lemma_resolved_ports(l, a, p.outputs, true);
}

/// The first input that lies nowhere, or whose floats would be misaligned, is
/// what is wrong with the plan.
pub proof fn law_the_first_input_that_lies_nowhere(p: PlanView, a: AddressesView, k: int)
    requires
        0 <= k < p.inputs.len(),
        forall|i: int|
            0 <= i < k ==> resolved_port(listed(p), a, #[trigger] p.inputs[i], false) is Ok,
    ensures
        ({
            let port = p.inputs[k];
            match located(listed(p), port.alloc, port.off, port.bytes) {
                Err(m) => resolved(p, a) == Err::<ReplayView, ErrorView>(
                    ErrorView::Parse { path: "replay.txt"@, message: m },
                ),
                Ok((slot, at)) => {
                    &&& port.element_type == "f32"@ && (a.of(at) % 4 != 0 || port.bytes % 4
                        != 0) ==> resolved(p, a) == Err::<ReplayView, ErrorView>(
                        ErrorView::Parse {
                            path: "replay.txt"@,
                            message: "f32 port "@ + port.name + " is misaligned"@,
                        },
                    )
                },
            }
        }),
{
    let l = listed(p);
    let port = p.inputs[k];
    if resolved_port(l, a, port, false) is Err {
        lemma_ports_fail(l, a, p.inputs, false, k, p.inputs.len() as int);
        assert(p.inputs.take(p.inputs.len() as int) =~= p.inputs);
    }
}

/// Where every input has its place, the first output that lies nowhere, or not
/// in host memory, or whose floats would be misaligned, is what is wrong with
/// the plan.
pub proof fn law_the_first_output_that_lies_nowhere(p: PlanView, a: AddressesView, k: int)
    requires
        forall|i: int|
            0 <= i < p.inputs.len() ==> resolved_port(
                listed(p),
                a,
                #[trigger] p.inputs[i],
                false,
            ) is Ok,
        0 <= k < p.outputs.len(),
        forall|i: int|
            0 <= i < k ==> resolved_port(listed(p), a, #[trigger] p.outputs[i], true) is Ok,
    ensures
        ({
            let port = p.outputs[k];
            match located(listed(p), port.alloc, port.off, port.bytes) {
                Err(m) => resolved(p, a) == Err::<ReplayView, ErrorView>(
                    ErrorView::Parse { path: "replay.txt"@, message: m },
                ),
                Ok((slot, at)) => {
                    &&& !slot.host ==> resolved(p, a) == Err::<ReplayView, ErrorView>(
                        ErrorView::Parse {
                            path: "replay.txt"@,
                            message: "output "@ + port.name + " is not in host memory"@,
                        },
                    )
                    &&& slot.host && port.element_type == "f32"@ && (a.of(at) % 4 != 0
                        || port.bytes % 4 != 0) ==> resolved(p, a) == Err::<ReplayView, ErrorView>(
                        ErrorView::Parse {
                            path: "replay.txt"@,
                            message: "f32 port "@ + port.name + " is misaligned"@,
                        },
                    )
                },
            }
        }),
{
    let l = listed(p);
    lemma_ports_hold(l, a, p.inputs, false, p.inputs.len() as int);
    assert(p.inputs.take(p.inputs.len() as int) =~= p.inputs);
    let port = p.outputs[k];
    if resolved_port(l, a, port, true) is Err {
        lemma_ports_fail(l, a, p.outputs, true, k, p.outputs.len() as int);
        assert(p.outputs.take(p.outputs.len() as int) =~= p.outputs);
    }
}

/// Where `golden.bin` holds every input, the recorded inference is replayed:
/// each input is written from its own bytes of the file, from its offset up to
/// its end, and then comes a run.
pub proof fn law_the_recorded_inference_is_a_run_on_its_inputs(r: ReplayView, golden: Seq<u8>)
    requires
        r.inputs.len() <= usize::MAX,
        golden.len() <= usize::MAX,
        forall|i: int|
            0 <= i < r.inputs.len() ==> (#[trigger] r.inputs[i]).golden + r.inputs[i].bytes
                <= golden.len(),
    ensures
        verifying(r, golden).stop is None,
        verifying(r, golden).commands.len() == r.inputs.len() + run_orders(r).len(),
        forall|i: int| #![trigger r.inputs[i]]
            0 <= i < r.inputs.len() ==> {
                &&& verifying(r, golden).commands[i] matches OrderView::Write { input, from, to }
                &&& input == i
                &&& from == r.inputs[i].golden
                &&& to == r.inputs[i].golden + r.inputs[i].bytes
            },
        forall|k: int| #![trigger run_orders(r)[k]]
            0 <= k < run_orders(r).len() ==> verifying(r, golden).commands[r.inputs.len() + k]
                == run_orders(r)[k],
{
    let f = golden_writes(r.inputs, golden);
    lemma_writes_hold(r.inputs, golden, r.inputs.len());
    law_every_input_is_written(r, golden);
    assert forall|i: int| #![trigger r.inputs[i]] 0 <= i < r.inputs.len() implies {
        &&& verifying(r, golden).commands[i] matches OrderView::Write { input, from, to }
        &&& input == i
        &&& from == r.inputs[i].golden
        &&& to == r.inputs[i].golden + r.inputs[i].bytes
    } by {
        assert(verifying(r, golden).commands[i] == (OrderView::Write {
            input: i as usize,
            from: r.inputs[i].golden,
            to: (r.inputs[i].golden + r.inputs[i].bytes) as usize,
        }));
    }
    lemma_golden_writes(r.inputs, golden, r.inputs.len());
}

pub proof fn lemma_writes_hold(inputs: Seq<IoView>, golden: Seq<u8>, n: nat)
    requires
        n <= inputs.len(),
        forall|i: int|
            0 <= i < n ==> (#[trigger] inputs[i]).golden + inputs[i].bytes <= golden.len(),
    ensures
        chain(golden_writes(inputs, golden), n).stop is None,
    decreases n,
{
    if n > 0 {
        lemma_writes_hold(inputs, golden, (n - 1) as nat);
        let f = golden_writes(inputs, golden);
        assert(f(n - 1) == golden_write(inputs, golden, n - 1));
        assert(inputs[n - 1].golden + inputs[n - 1].bytes <= golden.len());
    }
}

/// The first input that `golden.bin` does not hold to its end stops the
/// replay, behind the writes of the inputs before it.
pub proof fn law_a_short_recording_is_not_replayed(r: ReplayView, golden: Seq<u8>, k: int)
    requires
        0 <= k < r.inputs.len(),
        forall|i: int|
            0 <= i < k ==> (#[trigger] r.inputs[i]).golden + r.inputs[i].bytes <= golden.len(),
        r.inputs[k].golden + r.inputs[k].bytes > golden.len(),
    ensures
        verifying(r, golden).commands.len() == k,
        verifying(r, golden).stop == Some(
            ErrorView::Parse {
                path: "golden.bin"@,
                message: "too short for "@ + r.inputs[k].name,
            },
        ),
{
    let f = golden_writes(r.inputs, golden);
    lemma_writes_hold(r.inputs, golden, k as nat);
    lemma_golden_writes(r.inputs, golden, k as nat);
    assert(f(k) == golden_write(r.inputs, golden, k));
    assert(chain(f, (k + 1) as nat) == before(chain(f, k as nat), f(k)));
    lemma_chain_stays_stopped(f, (k + 1) as nat, r.inputs.len());
}

proof fn lemma_recorded(o: IoView, golden: Seq<u8>, got: Seq<u8>)
    ensures
        recorded(o, golden) == Some(got) <==> {
            &&& o.golden + o.bytes <= golden.len()
            &&& got.len() == o.bytes
            &&& forall|j: int| 0 <= j < o.bytes ==> #[trigger] got[j] == golden[o.golden + j]
        },
{
    if o.golden + o.bytes <= golden.len() {
        let want = golden.subrange(o.golden as int, o.golden + o.bytes);
        if got.len() == o.bytes && forall|j: int|
            0 <= j < o.bytes ==> #[trigger] got[j] == golden[o.golden + j] {
            assert(got =~= want);
        }
        if recorded(o, golden) == Some(got) {
            assert forall|j: int| 0 <= j < o.bytes implies #[trigger] got[j] == golden[o.golden
                + j] by {
                assert(want[j] == golden[o.golden + j]);
            }
        }
    }
}

/// The check passes exactly where every output has its recorded length, and
/// every byte of it is the byte of `golden.bin` as far behind the output's
/// offset there.
pub proof fn law_the_check_compares_every_byte(
    outputs: Seq<IoView>,
    golden: Seq<u8>,
    got: Seq<Seq<u8>>,
)
    requires
        got.len() == outputs.len(),
    ensures
        outputs_fault(outputs, golden, got, outputs.len() as int) is None <==> forall|i: int|
            #![trigger outputs[i]]
            0 <= i < outputs.len() ==> {
                &&& outputs[i].golden + outputs[i].bytes <= golden.len()
                &&& got[i].len() == outputs[i].bytes
                &&& forall|j: int|
                    0 <= j < outputs[i].bytes ==> #[trigger] got[i][j] == golden[outputs[i].golden
                        + j]
            },
{
    law_verified_outputs_are_identical(outputs, golden, got, outputs.len() as int);
    assert forall|i: int| 0 <= i < outputs.len() implies (recorded(outputs[i], golden) == Some(
        got[i],
    ) <==> {
        &&& outputs[i].golden + outputs[i].bytes <= golden.len()
        &&& got[i].len() == outputs[i].bytes
        &&& forall|j: int|
            0 <= j < outputs[i].bytes ==> #[trigger] got[i][j] == golden[outputs[i].golden + j]
    }) by {
        lemma_recorded(outputs[i], golden, got[i]);
    }
    if outputs_fault(outputs, golden, got, outputs.len() as int) is None {
        assert forall|i: int| #![trigger outputs[i]] 0 <= i < outputs.len() implies {
            &&& outputs[i].golden + outputs[i].bytes <= golden.len()
            &&& got[i].len() == outputs[i].bytes
            &&& forall|j: int|
                0 <= j < outputs[i].bytes ==> #[trigger] got[i][j] == golden[outputs[i].golden + j]
        } by {
            assert(recorded(outputs[i], golden) == Some(got[i]));
        }
    } else {
        let i = choose|i: int|
            0 <= i < outputs.len() && recorded(outputs[i], golden) != Some(#[trigger] got[i]);
        assert(recorded(outputs[i], golden) != Some(got[i]));
        assert(outputs[i].bytes == outputs[i].bytes);
    }
}

/// The count of differing bytes is that of the places at which the two rows,
/// as far as both go, hold different bytes.
pub proof fn law_differing_bytes_are_counted(a: Seq<u8>, b: Seq<u8>, n: int)
    requires
        0 <= n <= a.len(),
        n <= b.len(),
    ensures
        set_int_range(0, n).filter(|j: int| a[j] != b[j]).finite(),
        differing(a, b, n) == set_int_range(0, n).filter(|j: int| a[j] != b[j]).len(),
        shorter(a, b) == if a.len() < b.len() {
            a.len()
        } else {
            b.len()
        },
    decreases n,
{
    let apart = |j: int| a[j] != b[j];
    let s = set_int_range(0, n).filter(apart);
    lemma_int_range(0, n);
    if n > 0 {
        law_differing_bytes_are_counted(a, b, n - 1);
        let t = set_int_range(0, n - 1).filter(apart);
        if a[n - 1] != b[n - 1] {
            assert(s =~= t.insert(n - 1));
            assert(!t.contains(n - 1));
        } else {
            assert(s =~= t);
        }
    } else {
        assert(s =~= Set::empty());
    }
}

/// The error is that of the first output which is not as recorded: where
/// `golden.bin` does not hold it to its end, that; and otherwise its name, how
/// many of its bytes differ from the file's, and how many it has.
pub proof fn law_the_first_differing_output_is_named(
    outputs: Seq<IoView>,
    golden: Seq<u8>,
    got: Seq<Seq<u8>>,
    k: int,
)
    requires
        got.len() == outputs.len(),
        0 <= k < outputs.len(),
        forall|i: int| #![trigger outputs[i]]
            0 <= i < k ==> {
                &&& outputs[i].golden + outputs[i].bytes <= golden.len()
                &&& got[i].len() == outputs[i].bytes
                &&& forall|j: int|
                    0 <= j < outputs[i].bytes ==> #[trigger] got[i][j] == golden[outputs[i].golden
                        + j]
            },
        got[k].len() == outputs[k].bytes,
    ensures
        ({
            let o = outputs[k];
            let apart = set_int_range(0, o.bytes as int).filter(
                |j: int| got[k][j] != golden[o.golden + j],
            );
            let fault = outputs_fault(outputs, golden, got, outputs.len() as int);
            &&& o.golden + o.bytes > golden.len() ==> fault == Some(
                ErrorView::Parse {
                    path: "golden.bin"@,
                    message: "too short for "@ + o.name,
                },
            )
            &&& o.golden + o.bytes <= golden.len() && apart.len() > 0 ==> fault == Some(
                ErrorView::GoldenMismatch {
                    output: o.name,
                    differing: apart.len() as usize,
                    bytes: o.bytes,
                },
            )
        }),
{
    let o = outputs[k];
    let apart = set_int_range(0, o.bytes as int).filter(
        |j: int| got[k][j] != golden[o.golden + j],
    );
    assert forall|i: int| 0 <= i < k implies recorded(outputs[i], golden) == Some(
        #[trigger] got[i],
    ) by {
        lemma_recorded(outputs[i], golden, got[i]);
    }
    if o.golden + o.bytes > golden.len() {
        law_the_first_mismatch_is_the_error(outputs, golden, got, k);
    } else {
        let want = golden.subrange(o.golden as int, o.golden + o.bytes);
        law_differing_bytes_are_counted(got[k], want, o.bytes as int);
        let other = set_int_range(0, o.bytes as int).filter(|j: int| got[k][j] != want[j]);
        assert(other =~= apart);
        if apart.len() > 0 {
            law_a_mismatch_is_counted(got[k], want);
            law_the_first_mismatch_is_the_error(outputs, golden, got, k);
        }
    }
}

} // verus!
