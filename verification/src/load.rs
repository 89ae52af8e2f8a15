//! Loading a recording, step by step.
//!
//! A recording holds the exact kernels chosen on the GPU that it was made on.
//! [`Replay::load`] refuses another device. [`Load::build`] says what has to
//! be done to make the recording ready, and [`Building::finish`] takes over
//! when it is done. Where the driver is not the one of the recording, what
//! comes out is [`Unverified`], and only a replay of the recorded inference
//! with the very same outputs makes a [`Replay`] of it.

use vstd::prelude::*;

use crate::error::{Error, ErrorView};
use crate::layout::{fits_memory, inside, listed, Slots};
use crate::number::{hex_id, write_hex_id};
use crate::plan::{largest_alloc_id, Plan, PlanView};
use crate::replay::{
    differing, golden_write, golden_writes, law_a_mismatch_is_counted, law_every_input_is_written,
    law_ports_are_inside, law_the_check_compares_every_byte, law_the_first_mismatch_is_the_error,
    law_verified_outputs_are_identical, lemma_writes_hold, outputs_fault, recorded, resolved,
    verifying, Addresses, AddressesView, IoView, Order, OrderView, Replay, ReplayView,
};
use crate::script::{
    argument, arguments, binding, bindings, build, building, law_a_ready_plan_is_sound, preparation,
    preparations, Command,
};
use crate::text::{same, views};
use crate::trace::{chain, Trace};

verus! {

/// The device that a recording is loaded onto, as it describes itself.
pub struct Device {
    pub name: String,
    pub id: Option<u32>,
    pub driver: String,
}

/// A `Device`, its texts taken as sequences.
pub struct DeviceView {
    pub name: Seq<char>,
    pub id: Option<u32>,
    pub driver: Seq<char>,
}

impl View for Device {
    type V = DeviceView;

    open spec fn view(&self) -> DeviceView {
        DeviceView { name: self.name@, id: self.id, driver: self.driver@ }
    }
}

/// A device in words.
pub open spec fn described(name: Seq<char>, id: Option<u32>, driver: Seq<char>) -> Seq<char> {
    match id {
        None => name + " / "@ + driver,
        Some(id) => name + " ["@ + hex_id(id as int) + "] / "@ + driver,
    }
}

pub fn describe(name: &str, id: Option<u32>, driver: &str) -> (r: String)
    ensures
        r@ == described(name@, id, driver@),
{
    let mut s: String = name.to_owned();
    match id {
        None => {
            s.append(" / ");
        },
        Some(id) => {
            s.append(" [");
            s.append(write_hex_id(id).as_str());
            s.append("] / ");
        },
    }
    s.append(driver);
    s
}

/// The device is the one of the recording: by its name, and by its PCI device
/// id where both sides have one.
pub open spec fn same_device(p: PlanView, d: DeviceView) -> bool {
    &&& d.name == p.device_name
    &&& match (p.device_id, d.id) {
        (Some(a), Some(b)) => a == b,
        _ => true,
    }
}

pub open spec fn device_mismatch(p: PlanView, d: DeviceView) -> ErrorView {
    ErrorView::DeviceMismatch {
        recorded: described(p.device_name, p.device_id, p.driver_version),
        found: described(d.name, d.id, d.driver),
    }
}

/// What becomes of a recording, all told: the plan, the device, the length of
/// `weights.bin`, the addresses that the buffers are given, and, where the
/// driver is another, `golden.bin` and what the outputs came out as.
pub open spec fn load_outcome(
    p: PlanView,
    d: DeviceView,
    weights_len: usize,
    a: AddressesView,
    golden: Seq<u8>,
    got: Seq<Seq<u8>>,
) -> Result<ReplayView, ErrorView> {
    if !same_device(p, d) {
        Err(device_mismatch(p, d))
    } else {
        match building(p, weights_len).stop {
            Some(e) => Err(e),
            None => match resolved(p, a) {
                Err(e) => Err(e),
                Ok(r) => if d.driver == p.driver_version {
                    Ok(r)
                } else {
                    match verifying(r, golden).stop {
                        Some(e) => Err(e),
                        None => match outputs_fault(
                            r.outputs,
                            golden,
                            got,
                            r.outputs.len() as int,
                        ) {
                            Some(e) => Err(e),
                            None => Ok(r),
                        },
                    }
                },
            },
        }
    }
}

/// A recording on the device that it was made on.
pub struct Load {
    plan: Plan,
    device: Ghost<DeviceView>,
    verify: bool,
}

impl Load {
    pub closed spec fn plan(&self) -> PlanView {
        self.plan@
    }

    pub closed spec fn device(&self) -> DeviceView {
        self.device@
    }

    pub closed spec fn valid(&self) -> bool {
        &&& same_device(self.plan@, self.device@)
        &&& self.verify <==> self.device@.driver != self.plan@.driver_version
    }
}

impl Replay {
    /// Begin to load a recording: it must be of this device.
    pub fn load(plan: Plan, device: &Device) -> (r: Result<Load, Error>)
        ensures
            match r {
                Ok(l) => same_device(plan@, device@) && l.valid() && l.plan() == plan@
                    && l.device() == device@,
                Err(e) => !same_device(plan@, device@) && e@ == device_mismatch(plan@, device@),
            },
            r is Ok <==> device.name@ == plan.device_name@ && !(plan.device_id is Some
                && device.id is Some && plan.device_id != device.id),
    {
        let id_differs: bool = match (plan.device_id, device.id) {
            (Some(a), Some(b)) => a != b,
            _ => false,
        };
        if id_differs || !same(device.name.as_str(), plan.device_name.as_str()) {
            return Err(
                Error::DeviceMismatch {
                    recorded: describe(
                        plan.device_name.as_str(),
                        plan.device_id,
                        plan.driver_version.as_str(),
                    ),
                    found: describe(device.name.as_str(), device.id, device.driver.as_str()),
                },
            );
        }
        let verify: bool = !same(device.driver.as_str(), plan.driver_version.as_str());
        Ok(Load { plan, device: Ghost(device@), verify })
    }
}

/// A recording that is being made ready.
pub struct Building {
    load: Load,
    weights_len: Ghost<usize>,
    outcome: Result<Slots, Error>,
}

impl Building {
    pub closed spec fn plan(&self) -> PlanView {
        self.load.plan()
    }

    pub closed spec fn device(&self) -> DeviceView {
        self.load.device()
    }

    pub closed spec fn weights_len(&self) -> usize {
        self.weights_len@
    }

    pub closed spec fn valid(&self) -> bool {
        &&& self.load.valid()
        &&& match self.outcome {
            Ok(slots) => building(self.plan(), self.weights_len()).stop is None && slots.valid()
                && slots@ == listed(self.plan()),
            Err(e) => building(self.plan(), self.weights_len()).stop == Some(e@),
        }
    }
}

impl Load {
    /// What has to be done on the device, `weights.bin` being `weights_len`
    /// bytes long.
    pub fn build(self, weights_len: usize) -> (r: (Vec<Command>, Building))
        requires
            self.valid(),
            largest_alloc_id(self.plan()) < usize::MAX,
        ensures
            views(r.0@) == building(self.plan(), weights_len).commands,
            r.1.valid(),
            r.1.plan() == self.plan(),
            r.1.device() == self.device(),
            r.1.weights_len() == weights_len,
    {
        let (commands, outcome): (Vec<Command>, Result<Slots, Error>) = build(
            &self.plan,
            weights_len,
        );
        (commands, Building { load: self, weights_len: Ghost(weights_len), outcome })
    }

    /// Whether the identifiers of the recording's allocations leave room for
    /// a table of them.
    pub fn has_room(&self) -> (r: bool)
        ensures
            r == (largest_alloc_id(self.plan()) < usize::MAX),
    {
        self.plan.max_alloc_id() < usize::MAX
    }
}

/// What comes out of a load.
pub enum Loaded {
    Ready(Replay),
    Unverified(Unverified),
}

/// A recording that is ready, under another driver than the recorded one.
pub struct Unverified {
    replay: Replay,
    plan: Ghost<PlanView>,
    device: Ghost<DeviceView>,
    weights_len: Ghost<usize>,
    addresses: Ghost<AddressesView>,
}

impl Unverified {
    pub closed spec fn replay(&self) -> ReplayView {
        self.replay@
    }

    pub closed spec fn plan(&self) -> PlanView {
        self.plan@
    }

    pub closed spec fn device(&self) -> DeviceView {
        self.device@
    }

    pub closed spec fn weights_len(&self) -> usize {
        self.weights_len@
    }

    pub closed spec fn addresses(&self) -> AddressesView {
        self.addresses@
    }

    /// Of all that decides on a load, the recorded inference alone is left.
    pub open spec fn valid(&self) -> bool {
        &&& same_device(self.plan(), self.device())
        &&& building(self.plan(), self.weights_len()).stop is None
        &&& resolved(self.plan(), self.addresses()) == Ok::<ReplayView, ErrorView>(self.replay())
        &&& self.device().driver != self.plan().driver_version
    }
}

impl Building {
    /// Take over once the commands have been carried out, with the addresses
    /// that the buffers were given.
    pub fn finish(self, a: &Addresses) -> (r: Result<Loaded, Error>)
        requires
            self.valid(),
            building(self.plan(), self.weights_len()).stop is None ==> a@.cover(self.plan()),
        ensures
            match r {
                Ok(Loaded::Ready(replay)) => self.device().driver == self.plan().driver_version
                    && forall|golden: Seq<u8>, got: Seq<Seq<u8>>| #[trigger]
                    load_outcome(self.plan(), self.device(), self.weights_len(), a@, golden, got)
                        == Ok::<ReplayView, ErrorView>(replay@),
                Ok(Loaded::Unverified(u)) => u.valid() && u.plan() == self.plan() && u.device()
                    == self.device() && u.weights_len() == self.weights_len() && u.addresses()
                    == a@,
                Err(e) => forall|golden: Seq<u8>, got: Seq<Seq<u8>>| #[trigger]
                    load_outcome(self.plan(), self.device(), self.weights_len(), a@, golden, got)
                        == Err::<ReplayView, ErrorView>(e@),
            },
    {
        let ghost plan = self.plan();
        let ghost device = self.device();
        let ghost weights_len = self.weights_len();
        let slots: Slots = self.outcome?;
        let replay: Replay = Replay::resolve(&self.load.plan, &slots, a)?;
        if self.load.verify {
            Ok(
                Loaded::Unverified(
                    Unverified {
                        replay,
                        plan: Ghost(plan),
                        device: Ghost(device),
                        weights_len: Ghost(weights_len),
                        addresses: Ghost(a@),
                    },
                ),
            )
        } else {
            Ok(Loaded::Ready(replay))
        }
    }
}

/// A recording whose recorded inference is being replayed.
pub struct Verifying {
    unverified: Unverified,
    golden: Vec<u8>,
    outcome: Result<(), Error>,
}

impl Verifying {
    pub closed spec fn past(&self) -> Unverified {
        self.unverified
    }

    pub closed spec fn golden(&self) -> Seq<u8> {
        self.golden@
    }

    pub closed spec fn valid(&self) -> bool {
        &&& self.unverified.valid()
        &&& match self.outcome {
            Ok(_) => verifying(self.unverified.replay(), self.golden@).stop is None,
            Err(e) => verifying(self.unverified.replay(), self.golden@).stop == Some(e@),
        }
    }
}

impl Unverified {
    /// What replays the recorded inference, `golden.bin` holding these bytes.
    pub fn verify(self, golden: Vec<u8>) -> (r: (Vec<Order>, Verifying))
        requires
            self.valid(),
        ensures
            views(r.0@) == verifying(self.replay(), golden@).commands,
            r.1.valid(),
            r.1.past() == self,
            r.1.golden() == golden@,
    {
        let (orders, outcome): (Vec<Order>, Result<(), Error>) = self.replay.verify(
            golden.as_slice(),
        );
        assert(views(Seq::<Order>::empty()) + verifying(self.replay(), golden@).commands
            =~= verifying(self.replay(), golden@).commands);
        (orders, Verifying { unverified: self, golden, outcome })
    }
}

impl Verifying {
    /// Take over once the orders have been carried out, with what the outputs
    /// came out as.
    pub fn finish(self, got: &Vec<Vec<u8>>) -> (r: Result<Replay, Error>)
        requires
            self.valid(),
            verifying(self.past().replay(), self.golden()).stop is None ==> got@.len()
                == self.past().replay().outputs.len(),
        ensures
            match r {
                Ok(replay) => load_outcome(
                    self.past().plan(),
                    self.past().device(),
                    self.past().weights_len(),
                    self.past().addresses(),
                    self.golden(),
                    views(got@),
                ) == Ok::<ReplayView, ErrorView>(replay@),
                Err(e) => load_outcome(
                    self.past().plan(),
                    self.past().device(),
                    self.past().weights_len(),
                    self.past().addresses(),
                    self.golden(),
                    views(got@),
                ) == Err::<ReplayView, ErrorView>(e@),
            },
    {
        self.outcome?;
        self.unverified.replay.check_outputs(self.golden.as_slice(), got)?;
        Ok(self.unverified.replay)
    }

    /// The contents of `golden.bin`.
    pub fn golden_bytes(&self) -> (r: &Vec<u8>)
        ensures
            r@ == self.golden(),
    {
        &self.golden
    }

    /// The recording whose inputs are written and whose outputs are read.
    pub fn replay(&self) -> (r: &Replay)
        ensures
            r@ == self.past().replay(),
    {
        &self.unverified.replay
    }
}

// ---------------------------------------------------------------- laws

/// On another device a recording is refused, whatever else holds.
pub proof fn law_another_device_is_refused(
    p: PlanView,
    d: DeviceView,
    weights_len: usize,
    a: AddressesView,
    golden: Seq<u8>,
    got: Seq<Seq<u8>>,
)
    requires
        d.name != p.device_name || (p.device_id is Some && d.id is Some && p.device_id != d.id),
    ensures
        load_outcome(p, d, weights_len, a, golden, got) == Err::<ReplayView, ErrorView>(
            device_mismatch(p, d),
        ),
{
}

/// A recording that was loaded is of this device, and either its driver is
/// the recorded one, or the recorded inference gave, bit for bit, the recorded
/// outputs.
pub proof fn law_a_loaded_recording_is_trusted(
    p: PlanView,
    d: DeviceView,
    weights_len: usize,
    a: AddressesView,
    golden: Seq<u8>,
    got: Seq<Seq<u8>>,
    r: ReplayView,
)
    requires
        load_outcome(p, d, weights_len, a, golden, got) == Ok::<ReplayView, ErrorView>(r),
        d.driver == p.driver_version || got.len() == r.outputs.len(),
    ensures
        same_device(p, d),
        d.driver == p.driver_version || forall|i: int|
            0 <= i < r.outputs.len() ==> recorded(r.outputs[i], golden) == Some(#[trigger] got[i]),
{
    if d.driver != p.driver_version {
        law_verified_outputs_are_identical(r.outputs, golden, got, r.outputs.len() as int);
    }
}

/// Under the recorded driver, on the recorded device, a recording that can be
/// made ready is loaded without a look at `golden.bin`.
pub proof fn law_the_recorded_driver_is_trusted(
    p: PlanView,
    d: DeviceView,
    weights_len: usize,
    a: AddressesView,
    golden: Seq<u8>,
    got: Seq<Seq<u8>>,
)
    requires
        same_device(p, d),
        d.driver == p.driver_version,
        building(p, weights_len).stop is None,
    ensures
        load_outcome(p, d, weights_len, a, golden, got) == resolved(p, a),
{
}

/// Under another driver, a recording whose recorded inference comes out in
/// any other way is refused, and the error names the first output that does.
pub proof fn law_another_result_is_refused(
    p: PlanView,
    d: DeviceView,
    weights_len: usize,
    a: AddressesView,
    golden: Seq<u8>,
    got: Seq<Seq<u8>>,
    r: ReplayView,
    k: int,
)
    requires
        same_device(p, d),
        d.driver != p.driver_version,
        building(p, weights_len).stop is None,
        resolved(p, a) == Ok::<ReplayView, ErrorView>(r),
        verifying(r, golden).stop is None,
        got.len() == r.outputs.len(),
        0 <= k < r.outputs.len(),
        forall|i: int| 0 <= i < k ==> recorded(r.outputs[i], golden) == Some(#[trigger] got[i]),
        recorded(r.outputs[k], golden) is Some,
        got[k].len() == r.outputs[k].bytes,
        recorded(r.outputs[k], golden) != Some(got[k]),
    ensures
        ({
            let want = recorded(r.outputs[k], golden)->0;
            let count = differing(got[k], want, want.len() as int);
            &&& 1 <= count <= r.outputs[k].bytes
            &&& load_outcome(p, d, weights_len, a, golden, got) == Err::<ReplayView, ErrorView>(
                ErrorView::GoldenMismatch {
                    output: r.outputs[k].name,
                    differing: count as usize,
                    bytes: r.outputs[k].bytes,
                },
            )
        }),
{
    law_the_first_mismatch_is_the_error(r.outputs, golden, got, k);
    law_a_mismatch_is_counted(got[k], recorded(r.outputs[k], golden)->0);
}

/// Every input and output of a recording that was loaded lies, with all its
/// bytes, inside a buffer that was allocated for it; outputs can be read by
/// the host, and 32-bit floats as such.
pub proof fn law_loaded_ports_are_inside(
    p: PlanView,
    d: DeviceView,
    weights_len: usize,
    a: AddressesView,
    golden: Seq<u8>,
    got: Seq<Seq<u8>>,
    r: ReplayView,
)
    requires
        fits_memory(p),
        load_outcome(p, d, weights_len, a, golden, got) == Ok::<ReplayView, ErrorView>(r),
    ensures
        forall|i: int|
            0 <= i < r.inputs.len() ==> inside(
                p,
                weights_len,
                (#[trigger] r.inputs[i]).place,
                r.inputs[i].bytes as int,
            ),
        forall|i: int|
            0 <= i < r.outputs.len() ==> inside(
                p,
                weights_len,
                (#[trigger] r.outputs[i]).place,
                r.outputs[i].bytes as int,
            ) && r.outputs[i].place.buffer is Host && (r.outputs[i].element_type == "f32"@
                ==> a.of(r.outputs[i].place) % 4 == 0 && r.outputs[i].bytes % 4 == 0),
{
    law_a_ready_plan_is_sound(p, weights_len);
    assert forall|i: int| 0 <= i < r.inputs.len() implies inside(
        p,
        weights_len,
        (#[trigger] r.inputs[i]).place,
        r.inputs[i].bytes as int,
    ) by {
        law_ports_are_inside(p, weights_len, a, r, false, i);
    }
    assert forall|i: int| 0 <= i < r.outputs.len() implies inside(
        p,
        weights_len,
        (#[trigger] r.outputs[i]).place,
        r.outputs[i].bytes as int,
    ) && r.outputs[i].place.buffer is Host && (r.outputs[i].element_type == "f32"@ ==> a.of(
        r.outputs[i].place,
    ) % 4 == 0 && r.outputs[i].bytes % 4 == 0) by {
        law_ports_are_inside(p, weights_len, a, r, true, i);
    }
}

/// Nothing of a device is lost in its view.
pub proof fn law_devices_are_seen_whole(d: Device)
    ensures
        d@.name == d.name@,
        d@.id == d.id,
        d@.driver == d.driver@,
{
}

/// A device is described by its name and its driver, and between them by its
/// number where it has one.
pub proof fn law_devices_are_described_whole(name: Seq<char>, id: u32, driver: Seq<char>)
    ensures
        described(name, None, driver) == name + " / "@ + driver,
        described(name, Some(id), driver) == name + " ["@ + hex_id(id as int) + "] / "@ + driver,
{
}

proof fn lemma_chain_stops_for_cause<C>(f: spec_fn(int) -> Trace<C>, n: nat)
    ensures
        chain(f, n).stop matches Some(e) ==> exists|i: int|
            0 <= i < n && (#[trigger] f(i)).stop == Some(e),
    decreases n,
{
    if n > 0 {
        lemma_chain_stops_for_cause(f, (n - 1) as nat);
        if chain(f, (n - 1) as nat).stop is None && f(n - 1).stop is Some {
            assert(f(n - 1).stop == chain(f, n).stop);
        }
    }
}

/// What stops a plan on its way is no matter of the device.
proof fn lemma_building_is_no_matter_of_the_device(p: PlanView, weights_len: usize)
    ensures
        building(p, weights_len).stop matches Some(e) ==> !(e is DeviceMismatch),
{
    let l = listed(p);
    if let Some(e) = building(p, weights_len).stop {
        lemma_chain_stops_for_cause(bindings(l, weights_len), l.len());
        lemma_chain_stops_for_cause(preparations(p), p.launches.len());
        if chain(bindings(l, weights_len), l.len()).stop is Some {
            let i = choose|i: int|
                0 <= i < l.len() && (#[trigger] bindings(l, weights_len)(i)).stop == Some(e);
            assert(binding(l, weights_len, i).stop == Some(e));
        } else {
            let i = choose|i: int|
                0 <= i < p.launches.len() && (#[trigger] preparations(p)(i)).stop == Some(e);
            let launch = p.launches[i];
            assert(preparation(l, p.programs, launch).stop == Some(e));
            let g = arguments(l, launch.args);
            lemma_chain_stops_for_cause(g, launch.args.len());
            if chain(g, launch.args.len()).stop == Some(e) {
                let j = choose|j: int|
                    0 <= j < launch.args.len() && (#[trigger] g(j)).stop == Some(e);
                assert(argument(l, launch.args, j).stop == Some(e));
            }
        }
    }
}

proof fn lemma_outputs_are_no_matter_of_the_device(
    outputs: Seq<IoView>,
    golden: Seq<u8>,
    got: Seq<Seq<u8>>,
    n: int,
)
    ensures
        outputs_fault(outputs, golden, got, n) matches Some(e) ==> !(e is DeviceMismatch),
    decreases n,
{
    if n > 0 {
        lemma_outputs_are_no_matter_of_the_device(outputs, golden, got, n - 1);
    }
}

/// A device is refused exactly where its name is another than the recorded
/// one, or where both sides have a device number and the two differ. The error
/// describes both sides.
pub proof fn law_the_recorded_device_is_accepted(
    p: PlanView,
    d: DeviceView,
    weights_len: usize,
    a: AddressesView,
    golden: Seq<u8>,
    got: Seq<Seq<u8>>,
)
    ensures
        ({
            let outcome = load_outcome(p, d, weights_len, a, golden, got);
            let other = d.name != p.device_name || (p.device_id is Some && d.id is Some
                && p.device_id != d.id);
            &&& other <==> (outcome is Err && outcome->Err_0 is DeviceMismatch)
            &&& other ==> outcome == Err::<ReplayView, ErrorView>(
                ErrorView::DeviceMismatch {
                    recorded: described(p.device_name, p.device_id, p.driver_version),
                    found: described(d.name, d.id, d.driver),
                },
            )
        }),
{
    lemma_building_is_no_matter_of_the_device(p, weights_len);
    if let Ok(r) = resolved(p, a) {
        let f = golden_writes(r.inputs, golden);
        lemma_chain_stops_for_cause(f, r.inputs.len());
        if let Some(e) = verifying(r, golden).stop {
            let i = choose|i: int| 0 <= i < r.inputs.len() && (#[trigger] f(i)).stop == Some(e);
            assert(golden_write(r.inputs, golden, i).stop == Some(e));
        }
        lemma_outputs_are_no_matter_of_the_device(r.outputs, golden, got, r.outputs.len() as int);
    }
}

/// On the recorded device, what stops the recording from being made ready, or
/// what is wrong with its ports, is the outcome. Otherwise, under the recorded
/// driver, it is loaded; and under another, it is loaded exactly where
/// `golden.bin` holds its inputs and every output came out with the bytes that
/// the file holds for it.
pub proof fn law_what_becomes_of_a_recording(
    p: PlanView,
    d: DeviceView,
    weights_len: usize,
    a: AddressesView,
    golden: Seq<u8>,
    got: Seq<Seq<u8>>,
)
    requires
        d.name == p.device_name,
        p.device_id is None || d.id is None || p.device_id == d.id,
    ensures
        ({
            let outcome = load_outcome(p, d, weights_len, a, golden, got);
            let made = building(p, weights_len).stop;
            &&& made matches Some(e) ==> outcome == Err::<ReplayView, ErrorView>(e)
            &&& made is None ==> (resolved(p, a) matches Err(e) ==> outcome == Err::<
                ReplayView,
                ErrorView,
            >(e))
            &&& made is None && d.driver == p.driver_version ==> (resolved(p, a) matches Ok(r)
                ==> outcome == Ok::<ReplayView, ErrorView>(r))
            &&& made is None && d.driver != p.driver_version ==> (resolved(p, a) matches Ok(r) ==> (
            got.len() == r.outputs.len() ==> {
                let held = forall|i: int| #![trigger r.inputs[i]]
                    0 <= i < r.inputs.len() ==> r.inputs[i].golden + r.inputs[i].bytes
                        <= golden.len();
                let same = forall|i: int| #![trigger r.outputs[i]]
                    0 <= i < r.outputs.len() ==> {
                        &&& r.outputs[i].golden + r.outputs[i].bytes <= golden.len()
                        &&& got[i].len() == r.outputs[i].bytes
                        &&& forall|j: int|
                            0 <= j < r.outputs[i].bytes ==> #[trigger] got[i][j]
                                == golden[r.outputs[i].golden + j]
                    };
                &&& held && same ==> outcome == Ok::<ReplayView, ErrorView>(r)
                &&& !(held && same) ==> outcome is Err
            }))
        }),
{
    if building(p, weights_len).stop is None && d.driver != p.driver_version {
        if let Ok(r) = resolved(p, a) {
            if got.len() == r.outputs.len() {
                law_the_check_compares_every_byte(r.outputs, golden, got);
                let held = forall|i: int| #![trigger r.inputs[i]]
                    0 <= i < r.inputs.len() ==> r.inputs[i].golden + r.inputs[i].bytes
                        <= golden.len();
                let same = forall|i: int| #![trigger r.outputs[i]]
                    0 <= i < r.outputs.len() ==> {
                        &&& r.outputs[i].golden + r.outputs[i].bytes <= golden.len()
                        &&& got[i].len() == r.outputs[i].bytes
                        &&& forall|j: int|
                            0 <= j < r.outputs[i].bytes ==> #[trigger] got[i][j]
                                == golden[r.outputs[i].golden + j]
                    };
                assert(same <==> outputs_fault(
                    r.outputs,
                    golden,
                    got,
                    r.outputs.len() as int,
                ) is None);
                if held {
                    lemma_writes_hold(r.inputs, golden, r.inputs.len());
                } else if verifying(r, golden).stop is None {
                    law_every_input_is_written(r, golden);
                    let i = choose|i: int| #![trigger r.inputs[i]]
                        0 <= i < r.inputs.len() && r.inputs[i].golden + r.inputs[i].bytes
                            > golden.len();
                    assert(verifying(r, golden).commands[i] == (OrderView::Write {
                        input: i as usize,
                        from: r.inputs[i].golden,
                        to: (r.inputs[i].golden + r.inputs[i].bytes) as usize,
                    }));
                }
            }
        }
    }
}

} // verus!
