//! What has to be done on the device to make a recording ready: memory,
//! programs, kernels and their arguments, in the order in which it is done.
//!
//! The commands are carried out one after the other, and the first that fails
//! on the device ends the work. Where a plan does not fit its own lists, the
//! commands end early, and the error that stops there is the outcome once
//! they have been carried out.

use vstd::prelude::*;
use vstd::slice::slice_to_vec;

use crate::cl::{
    is_kernel_name, kernel_name, law_kernel_names_hold_no_nul, usm_bytes, usm_size, ClError,
    ClErrorView,
};
use crate::error::{Error, ErrorView};
use crate::layout::{
    fits_memory, host_slot, inside, law_identifiers_are_distinct, law_largest_alloc_id,
    law_located_places_are_inside, lemma_slot_of, listed, listing_fault, located, plan_err,
    plan_error, scratch_slot, slot_of, sound, weights_slot, Buffer, Listed, Place, Slot, Slots,
};
use crate::number::{decimal, write_decimal};
use crate::plan::{largest_alloc_id, Arg, ArgView, LaunchPlan, LaunchView, Plan, PlanView, Region};
use crate::text::{lemma_views_push, views};
use crate::trace::{
    before, chain, does, lemma_chain_runs_through, lemma_chain_stays_stopped, stops, traces, Trace,
};

verus! {

broadcast use lemma_views_push;

/// One thing to do on the device.
pub enum Command {
    /// Allocate device memory for the constants.
    AllocWeights(usize),
    /// Fill it with the contents of `weights.bin`.
    UploadWeights,
    /// Allocate device memory: the next scratch buffer.
    AllocDevice(usize),
    /// Allocate host memory: the next host buffer.
    AllocHost(usize),
    /// Build a program from the binary in a file of the recording.
    LoadProgram { program: usize, file: String },
    /// Create the next launch's kernel from a program that was built.
    CreateKernel { program: usize, name: String },
    /// Bind an argument of that kernel: a pointer to a place,
    BindPtr { index: u32, at: Place },
    /// bytes by value,
    BindValue { index: u32, bytes: Vec<u8> },
    /// so many bytes of local memory,
    BindLocal { index: u32, size: usize },
    /// or a null pointer.
    BindNull { index: u32 },
}

/// A `Command`, taken as sequences.
pub enum CommandView {
    AllocWeights(usize),
    UploadWeights,
    AllocDevice(usize),
    AllocHost(usize),
    LoadProgram { program: usize, file: Seq<char> },
    CreateKernel { program: usize, name: Seq<char> },
    BindPtr { index: u32, at: Place },
    BindValue { index: u32, bytes: Seq<u8> },
    BindLocal { index: u32, size: usize },
    BindNull { index: u32 },
}

impl View for Command {
    type V = CommandView;

    open spec fn view(&self) -> CommandView {
        match self {
            Command::AllocWeights(n) => CommandView::AllocWeights(*n),
            Command::UploadWeights => CommandView::UploadWeights,
            Command::AllocDevice(n) => CommandView::AllocDevice(*n),
            Command::AllocHost(n) => CommandView::AllocHost(*n),
            Command::LoadProgram { program, file } => CommandView::LoadProgram {
                program: *program,
                file: file@,
            },
            Command::CreateKernel { program, name } => CommandView::CreateKernel {
                program: *program,
                name: name@,
            },
            Command::BindPtr { index, at } => CommandView::BindPtr { index: *index, at: *at },
            Command::BindValue { index, bytes } => CommandView::BindValue {
                index: *index,
                bytes: bytes@,
            },
            Command::BindLocal { index, size } => CommandView::BindLocal {
                index: *index,
                size: *size,
            },
            Command::BindNull { index } => CommandView::BindNull { index: *index },
        }
    }
}

// ---------------------------------------------------------------- the script

/// Bring up the allocation at `i` of the list. Constants need no memory of
/// their own.
pub open spec fn binding(l: Seq<Listed>, weights_len: usize, i: int) -> Trace<CommandView> {
    Trace {
        commands: match l[i].slot.place.buffer {
            Buffer::Weights => seq![],
            Buffer::Scratch(_) => seq![CommandView::AllocDevice(usm_bytes(l[i].slot.size))],
            Buffer::Host(_) => seq![CommandView::AllocHost(usm_bytes(l[i].slot.size))],
        },
        stop: listing_fault(l, weights_len, i),
    }
}

pub open spec fn bindings(l: Seq<Listed>, weights_len: usize) -> spec_fn(int) -> Trace<
    CommandView,
> {
    |i: int| binding(l, weights_len, i)
}

/// The file that holds a program's binary.
pub open spec fn program_file(program: usize) -> Seq<char> {
    "prog_"@ + decimal(program as int) + ".bin"@
}

/// Build each of the plan's programs.
pub open spec fn program_commands(p: PlanView) -> Seq<CommandView> {
    Seq::new(
        p.programs.len(),
        |i: int|
            CommandView::LoadProgram {
                program: p.programs[i],
                file: program_file(p.programs[i]),
            },
    )
}

/// Bind the argument at `i` of a kernel.
pub open spec fn argument(l: Seq<Listed>, args: Seq<ArgView>, i: int) -> Trace<CommandView> {
    let index = i as u32;
    if i > u32::MAX {
        stops(plan_error("too many arguments"@))
    } else {
        match args[i] {
            ArgView::Ptr { alloc, off } => match located(l, alloc, off, 0) {
                Ok((_, at)) => does(seq![CommandView::BindPtr { index, at }]),
                Err(m) => stops(plan_error(m)),
            },
            ArgView::Value(bytes) => does(seq![CommandView::BindValue { index, bytes }]),
            ArgView::Local(size) => does(seq![CommandView::BindLocal { index, size }]),
            ArgView::Null => does(seq![CommandView::BindNull { index }]),
        }
    }
}

pub open spec fn arguments(l: Seq<Listed>, args: Seq<ArgView>) -> spec_fn(int) -> Trace<
    CommandView,
> {
    |i: int| argument(l, args, i)
}

/// Create the kernel of a launch, and bind its arguments.
pub open spec fn preparation(
    l: Seq<Listed>,
    programs: Seq<usize>,
    launch: LaunchView,
) -> Trace<CommandView> {
    if !programs.contains(launch.program) {
        stops(plan_error("no program "@ + decimal(launch.program as int)))
    } else if !is_kernel_name(launch.name) {
        stops(ErrorView::Cl(ClErrorView { call: "clCreateKernel"@, code: 0 }))
    } else {
        before(
            does(seq![CommandView::CreateKernel { program: launch.program, name: launch.name }]),
            chain(arguments(l, launch.args), launch.args.len()),
        )
    }
}

pub open spec fn preparations(p: PlanView) -> spec_fn(int) -> Trace<CommandView> {
    |i: int| preparation(listed(p), p.programs, p.launches[i])
}

/// All that makes a plan ready, `weights.bin` being `weights_len` bytes long.
pub open spec fn building(p: PlanView, weights_len: usize) -> Trace<CommandView> {
    let memory = does(
        seq![CommandView::AllocWeights(usm_bytes(weights_len)), CommandView::UploadWeights],
    );
    let allocations = chain(bindings(listed(p), weights_len), listed(p).len());
    let programs = does(program_commands(p));
    let launches = chain(preparations(p), p.launches.len());
    before(before(before(memory, allocations), programs), launches)
}

/// How far the list of allocations has been brought up.
spec fn bound(
    plan: &Plan,
    weights_len: usize,
    slots: &Slots,
    start: Seq<Command>,
    commands: Seq<Command>,
    k: int,
) -> bool {
    let l = listed(plan@);
    let done = chain(bindings(l, weights_len), k as nat);
    &&& 0 <= k <= l.len()
    &&& slots.valid()
    &&& slots.room() == largest_alloc_id(plan@)
    &&& slots@ == l.take(k)
    &&& done.stop is None
    &&& views(commands) == views(start) + done.commands
}

/// Give the allocation at `k` of the list its slot; its memory has been asked
/// for.
fn bind_next(
    plan: &Plan,
    weights_len: usize,
    slots: &mut Slots,
    commands: &Vec<Command>,
    id: usize,
    slot: Slot,
    start: Ghost<Seq<Command>>,
    k: Ghost<int>,
) -> (r: Result<(), Error>)
    requires
        0 <= k@ < listed(plan@).len(),
        old(slots).valid(),
        old(slots).room() == largest_alloc_id(plan@),
        old(slots)@ == listed(plan@).take(k@),
        listed(plan@)[k@] == (Listed { id, slot }),
        slot.place.buffer is Weights ==> slot.place.off + slot.size <= weights_len,
        !(slot.place.buffer is Weights) ==> slot.place.off == 0,
        chain(bindings(listed(plan@), weights_len), k@ as nat).stop is None,
        views(commands@) == views(start@) + chain(
            bindings(listed(plan@), weights_len),
            k@ as nat,
        ).commands + binding(listed(plan@), weights_len, k@).commands,
    ensures
        r is Ok ==> bound(plan, weights_len, final(slots), start@, commands@, k@ + 1),
        r is Err ==> traces(
            start@,
            commands@,
            r,
            chain(bindings(listed(plan@), weights_len), listed(plan@).len()),
        ),
{
    let ghost l = listed(plan@);
    let ghost f = bindings(l, weights_len);
    proof {
        law_largest_alloc_id(plan@);
        assert(l[k@].id == id);
        assert(chain(f, (k@ + 1) as nat) == before(chain(f, k@ as nat), f(k@)));
        assert(f(k@) == binding(l, weights_len, k@));
        assert(l.take(k@).push(l[k@]) =~= l.take(k@ + 1));
        assert(views(start@) + chain(f, k@ as nat).commands + f(k@).commands =~= views(start@)
            + chain(f, (k@ + 1) as nat).commands);
    }
    match slots.bind(id, slot) {
        Ok(_) => Ok(()),
        Err(e) => {
            proof {
                lemma_chain_stays_stopped(f, (k@ + 1) as nat, l.len());
            }
            Err(e)
        },
    }
}

/// Bring up every allocation of the plan.
fn bind_all(
    plan: &Plan,
    weights_len: usize,
    slots: &mut Slots,
    commands: &mut Vec<Command>,
) -> (r: Result<(), Error>)
    requires
        old(slots).valid(),
        old(slots).room() == largest_alloc_id(plan@),
        old(slots)@ == Seq::<Listed>::empty(),
    ensures
        traces(
            old(commands)@,
            final(commands)@,
            r,
            chain(bindings(listed(plan@), weights_len), listed(plan@).len()),
        ),
        r is Ok ==> final(slots).valid() && final(slots)@ == listed(plan@),
{
    let ghost start = commands@;
    let ghost l = listed(plan@);
    let ghost f = bindings(l, weights_len);
    let nw: usize = plan.weights.len();
    let ns: usize = plan.scratch.len();
    let nh: usize = plan.host.len();
    proof {
        assert(l.take(0) =~= Seq::<Listed>::empty());
        assert(views(start) + chain(f, 0).commands =~= views(start));
    }
    let mut i: usize = 0;
    while i < nw
        invariant
            i <= nw,
            nw == plan.weights@.len(),
            l == listed(plan@),
            f == bindings(l, weights_len),
            start == old(commands)@,
            bound(plan, weights_len, slots, start, commands@, i as int),
        decreases nw - i,
    {
        let w: Region = plan.weights[i];
        assert(l[i as int] == (Listed { id: w.id, slot: weights_slot(w) }));
        proof {
            assert(views(start) + chain(f, i as nat).commands + binding(
                l,
                weights_len,
                i as int,
            ).commands =~= views(start) + chain(f, i as nat).commands);
        }
        if w.off > weights_len || w.size > weights_len - w.off {
            let mut m: String = "allocation ".to_owned();
            m.append(write_decimal(w.id).as_str());
            m.append(" lies outside weights.bin");
            proof {
                assert(f(i as int) == binding(l, weights_len, i as int));
                assert(chain(f, i as nat + 1) == before(chain(f, i as nat), f(i as int)));
                assert(views(start) + chain(f, i as nat + 1).commands =~= views(commands@));
                lemma_chain_stays_stopped(f, i as nat + 1, l.len());
            }
            return Err(plan_err(m));
        }
        let slot: Slot = Slot {
            place: Place { buffer: Buffer::Weights, off: w.off },
            size: w.size,
            host: false,
        };
        bind_next(
            plan,
            weights_len,
            slots,
            commands,
            w.id,
            slot,
            Ghost(start),
            Ghost(i as int),
        )?;
        i += 1;
    }
    let mut j: usize = 0;
    while j < ns
        invariant
            j <= ns,
            nw == plan.weights@.len(),
            ns == plan.scratch@.len(),
            l == listed(plan@),
            f == bindings(l, weights_len),
            start == old(commands)@,
            bound(plan, weights_len, slots, start, commands@, nw + j),
        decreases ns - j,
    {
        let g: Region = plan.scratch[j];
        assert(l[nw + j] == (Listed { id: g.id, slot: scratch_slot(j as int, g) }));
        let slot: Slot = Slot {
            place: Place { buffer: Buffer::Scratch(j), off: 0 },
            size: g.size,
            host: false,
        };
        let ghost so_far = commands@;
        commands.push(Command::AllocDevice(usm_size(g.size)));
        proof {
            let one = seq![CommandView::AllocDevice(usm_bytes(g.size))];
            assert(binding(l, weights_len, nw + j).commands == one);
            assert(views(commands@) =~= views(so_far) + one);
        }
        bind_next(
            plan,
            weights_len,
            slots,
            commands,
            g.id,
            slot,
            Ghost(start),
            Ghost(nw + j),
        )?;
        j += 1;
    }
    let mut h: usize = 0;
    while h < nh
        invariant
            h <= nh,
            nw == plan.weights@.len(),
            ns == plan.scratch@.len(),
            nh == plan.host@.len(),
            l == listed(plan@),
            f == bindings(l, weights_len),
            start == old(commands)@,
            bound(plan, weights_len, slots, start, commands@, nw + ns + h),
        decreases nh - h,
    {
        let g: Region = plan.host[h];
        assert(l[nw + ns + h] == (Listed { id: g.id, slot: host_slot(h as int, g) }));
        let slot: Slot = Slot {
            place: Place { buffer: Buffer::Host(h), off: 0 },
            size: g.size,
            host: true,
        };
        let ghost so_far = commands@;
        commands.push(Command::AllocHost(usm_size(g.size)));
        proof {
            let one = seq![CommandView::AllocHost(usm_bytes(g.size))];
            assert(binding(l, weights_len, nw + ns + h).commands == one);
            assert(views(commands@) =~= views(so_far) + one);
        }
        bind_next(
            plan,
            weights_len,
            slots,
            commands,
            g.id,
            slot,
            Ghost(start),
            Ghost(nw + ns + h),
        )?;
        h += 1;
    }
    assert(l.take(l.len() as int) =~= l);
    Ok(())
}

impl Plan {
    /// What builds the programs of the plan, each from its own file.
    pub fn build_programs(&self) -> (r: Vec<Command>)
        ensures
            views(r@) == program_commands(self@),
    {
        let mut out: Vec<Command> = Vec::new();
        let mut i: usize = 0;
        while i < self.programs.len()
            invariant
                i <= self.programs@.len(),
                views(out@) == program_commands(self@).take(i as int),
            decreases self.programs@.len() - i,
        {
            let program: usize = self.programs[i];
            let mut file: String = "prog_".to_owned();
            file.append(write_decimal(program).as_str());
            file.append(".bin");
            out.push(Command::LoadProgram { program, file });
            i += 1;
        }
        assert(program_commands(self@).take(i as int) =~= program_commands(self@));
        out
    }
}

/// Bind the arguments of the kernel that was created last.
fn bind_args(slots: &Slots, args: &Vec<Arg>, commands: &mut Vec<Command>) -> (r: Result<(), Error>)
    requires
        slots.valid(),
    ensures
        traces(
            old(commands)@,
            final(commands)@,
            r,
            chain(arguments(slots@, views(args@)), args@.len()),
        ),
{
    let ghost start = commands@;
    let ghost vs = views(args@);
    let ghost f = arguments(slots@, vs);
    let n: usize = args.len();
    let mut i: usize = 0;
    assert(views(start) + chain(f, 0).commands =~= views(start));
    while i < n
        invariant
            i <= n,
            n == args@.len(),
            slots.valid(),
            start == old(commands)@,
            vs == views(args@),
            f == arguments(slots@, vs),
            chain(f, i as nat).stop is None,
            views(commands@) == views(start) + chain(f, i as nat).commands,
        decreases n - i,
    {
        proof {
            assert(f(i as int) == argument(slots@, vs, i as int));
            assert(vs[i as int] == args@[i as int]@);
            assert(chain(f, i as nat + 1) == before(chain(f, i as nat), f(i as int)));
            if f(i as int).stop is Some {
                lemma_chain_stays_stopped(f, i as nat + 1, n as nat);
                if f(i as int).commands.len() == 0 {
                    assert(chain(f, i as nat + 1).commands =~= chain(f, i as nat).commands);
                }
            }
        }
        if i as u64 > 0xffff_ffff {
            return Err(plan_err("too many arguments".to_owned()));
        }
        let index: u32 = i as u32;
        let command: Command = match &args[i] {
            Arg::Ptr { alloc, off } => match slots.locate(*alloc, *off, 0) {
                Ok((_, at)) => Command::BindPtr { index, at },
                Err(m) => return Err(plan_err(m)),
            },
            Arg::Value(bytes) => Command::BindValue {
                index,
                bytes: slice_to_vec(bytes.as_slice()),
            },
            Arg::Local(size) => Command::BindLocal { index, size: *size },
            Arg::Null => Command::BindNull { index },
        };
        proof {
            assert(f(i as int) == does(seq![command@]));
            assert(views(start) + (chain(f, i as nat).commands + seq![command@]) =~= (views(start)
                + chain(f, i as nat).commands).push(command@));
        }
        commands.push(command);
        i += 1;
    }
    Ok(())
}

/// Create the kernel of a launch, and bind its arguments.
fn prepare(
    slots: &Slots,
    programs: &Vec<usize>,
    launch: &LaunchPlan,
    commands: &mut Vec<Command>,
) -> (r: Result<(), Error>)
    requires
        slots.valid(),
    ensures
        traces(
            old(commands)@,
            final(commands)@,
            r,
            preparation(slots@, programs@, launch@),
        ),
{
    let ghost start = commands@;
    assert(views(start) + Seq::<CommandView>::empty() =~= views(start));
    let mut known: bool = false;
    let mut i: usize = 0;
    while i < programs.len() && !known
        invariant
            i <= programs@.len(),
            known ==> programs@.contains(launch.program),
            !known ==> forall|j: int| 0 <= j < i ==> programs@[j] != launch.program,
        decreases programs@.len() - i,
    {
        if programs[i] == launch.program {
            assert(programs@[i as int] == launch.program);
            known = true;
        }
        i += 1;
    }
    if !known {
        let mut m: String = "no program ".to_owned();
        m.append(write_decimal(launch.program).as_str());
        return Err(plan_err(m));
    }
    if !kernel_name(launch.name.as_str()) {
        return Err(Error::Cl(ClError { call: "clCreateKernel", code: 0 }));
    }
    let create: Command = Command::CreateKernel {
        program: launch.program,
        name: launch.name.clone(),
    };
    let ghost one = seq![create@];
    commands.push(create);
    assert(views(commands@) =~= views(start) + one);
    let ghost rest = chain(arguments(slots@, views(launch.args@)), launch.args@.len());
    assert(views(start) + one + rest.commands =~= views(start) + (one + rest.commands));
    bind_args(slots, &launch.args, commands)
}

/// Prepare every launch of the plan.
fn prepare_all(plan: &Plan, slots: &Slots, commands: &mut Vec<Command>) -> (r: Result<(), Error>)
    requires
        slots.valid(),
        slots@ == listed(plan@),
    ensures
        traces(
            old(commands)@,
            final(commands)@,
            r,
            chain(preparations(plan@), plan@.launches.len()),
        ),
{
    let ghost start = commands@;
    let ghost f = preparations(plan@);
    let n: usize = plan.launches.len();
    let mut i: usize = 0;
    assert(views(start) + chain(f, 0).commands =~= views(start));
    while i < n
        invariant
            i <= n,
            n == plan.launches@.len(),
            slots.valid(),
            slots@ == listed(plan@),
            start == old(commands)@,
            f == preparations(plan@),
            chain(f, i as nat).stop is None,
            views(commands@) == views(start) + chain(f, i as nat).commands,
        decreases n - i,
    {
        proof {
            assert(f(i as int) == preparation(
                slots@,
                plan.programs@,
                plan.launches@[i as int]@,
            ));
            assert(chain(f, i as nat + 1) == before(chain(f, i as nat), f(i as int)));
            assert(views(start) + chain(f, i as nat).commands + f(i as int).commands =~= views(
                start,
            ) + chain(f, i as nat + 1).commands);
            if f(i as int).stop is Some {
                lemma_chain_stays_stopped(f, i as nat + 1, n as nat);
            }
        }
        prepare(slots, &plan.programs, &plan.launches[i], commands)?;
        i += 1;
    }
    Ok(())
}

/// All that makes a plan ready: the commands, and, once they have been
/// carried out, the slots of its allocations or the error that stops it.
pub fn build(plan: &Plan, weights_len: usize) -> (r: (Vec<Command>, Result<Slots, Error>))
    requires
        largest_alloc_id(plan@) < usize::MAX,
    ensures
        views(r.0@) == building(plan@, weights_len).commands,
        match r.1 {
            Ok(slots) => building(plan@, weights_len).stop is None && slots.valid() && slots@
                == listed(plan@),
            Err(e) => building(plan@, weights_len).stop == Some(e@),
        },
{
    let mut commands: Vec<Command> = Vec::new();
    commands.push(Command::AllocWeights(usm_size(weights_len)));
    commands.push(Command::UploadWeights);
    let ghost memory = seq![
        CommandView::AllocWeights(usm_bytes(weights_len)),
        CommandView::UploadWeights,
    ];
    assert(views(commands@) =~= memory);
    let mut slots: Slots = Slots::new(plan);
    if let Err(e) = bind_all(plan, weights_len, &mut slots, &mut commands) {
        return (commands, Err(e));
    }
    let ghost so_far = commands@;
    let mut programs: Vec<Command> = plan.build_programs();
    let ghost loaded = programs@;
    commands.append(&mut programs);
    assert(views(so_far + loaded) =~= views(so_far) + views(loaded));
    match prepare_all(plan, &slots, &mut commands) {
        Ok(_) => (commands, Ok(slots)),
        Err(e) => (commands, Err(e)),
    }
}

// ---------------------------------------------------------------- laws

/// A plan that can be made ready lists its constants inside `weights.bin`,
/// and no identifier twice.
pub proof fn law_a_ready_plan_is_sound(p: PlanView, weights_len: usize)
    requires
        building(p, weights_len).stop is None,
    ensures
        sound(listed(p), weights_len, listed(p).len() as int),
        forall|i: int|
            0 <= i < p.weights.len() ==> (#[trigger] p.weights[i]).off + p.weights[i].size
                <= weights_len,
        forall|i: int, j: int|
            0 <= i < j < listed(p).len() ==> (#[trigger] listed(p)[i]).id != (
            #[trigger] listed(p)[j]).id,
{
    let l = listed(p);
    let f = bindings(l, weights_len);
    lemma_chain_runs_through(f, l.len());
    assert forall|i: int| 0 <= i < l.len() implies #[trigger] listing_fault(
        l,
        weights_len,
        i,
    ) is None by {
        assert(f(i).stop == listing_fault(l, weights_len, i));
    }
    assert forall|i: int| 0 <= i < p.weights.len() implies (#[trigger] p.weights[i]).off
        + p.weights[i].size <= weights_len by {
        assert(listing_fault(l, weights_len, i) is None);
    }
    assert forall|i: int, j: int| 0 <= i < j < l.len() implies (#[trigger] l[i]).id != (
    #[trigger] l[j]).id by {
        law_identifiers_are_distinct(l, weights_len, i, j);
    }
}

/// Every pointer that is bound as an argument points into a buffer of the
/// plan, or to its end.
pub proof fn law_bound_pointers_are_inside(
    p: PlanView,
    weights_len: usize,
    index: u32,
    at: Place,
)
    requires
        fits_memory(p),
        building(p, weights_len).stop is None,
        building(p, weights_len).commands.contains(CommandView::BindPtr { index, at }),
    ensures
        inside(p, weights_len, at, 0),
{
    law_a_ready_plan_is_sound(p, weights_len);
    let c = CommandView::BindPtr { index, at };
    let l = listed(p);
    let memory = seq![
        CommandView::AllocWeights(usm_bytes(weights_len)),
        CommandView::UploadWeights,
    ];
    let allocations = chain(bindings(l, weights_len), l.len()).commands;
    let programs = program_commands(p);
    let launches = chain(preparations(p), p.launches.len()).commands;
    let all = building(p, weights_len).commands;
    assert(all =~= memory + allocations + programs + launches);
    let k = choose|k: int| 0 <= k < all.len() && all[k] == c;
    let m = memory.len() as int;
    let a = allocations.len() as int;
    lemma_chain_runs_through(bindings(l, weights_len), l.len());
    lemma_chain_runs_through(preparations(p), p.launches.len());
    if m <= k < m + a {
        assert(allocations[k - m] == c);
        assert(allocations.contains(c));
        let i = choose|i: int|
            0 <= i < l.len() && (#[trigger] bindings(l, weights_len)(i)).commands.contains(c);
        assert(binding(l, weights_len, i).commands.contains(c));
    }
    assert(k >= m + a + programs.len());
    assert(launches[k - m - a - programs.len()] == c);
    assert(launches.contains(c));
    let i = choose|i: int|
        0 <= i < p.launches.len() && (#[trigger] preparations(p)(i)).commands.contains(c);
    assert(preparations(p)(i).stop is None);
    let launch = p.launches[i];
    let create = seq![
        CommandView::CreateKernel { program: launch.program, name: launch.name },
    ];
    let g = arguments(l, launch.args);
    let rest = chain(g, launch.args.len());
    assert(preparation(l, p.programs, launch).commands == create + rest.commands);
    let n = choose|n: int| 0 <= n < (create + rest.commands).len() && (create + rest.commands)[n]
        == c;
    assert(n >= 1);
    assert(rest.commands[n - 1] == c);
    assert(rest.commands.contains(c));
    lemma_chain_runs_through(g, launch.args.len());
    let j = choose|j: int| 0 <= j < launch.args.len() && (#[trigger] g(j)).commands.contains(c);
    assert(argument(l, launch.args, j).commands.contains(c));
    if let ArgView::Ptr { alloc, off } = launch.args[j] {
        law_located_places_are_inside(p, weights_len, alloc, off, 0);
    }
}

/// Memory for each scratch and each host allocation, in order.
pub open spec fn memory_commands(p: PlanView) -> Seq<CommandView> {
    Seq::new(
        p.scratch.len() + p.host.len(),
        |i: int|
            if i < p.scratch.len() {
                CommandView::AllocDevice(usm_bytes(p.scratch[i].size))
            } else {
                CommandView::AllocHost(usm_bytes(p.host[i - p.scratch.len()].size))
            },
    )
}

/// Making a plan ready begins with the constants, and fills them once; then
/// come memory for each allocation, each program of the plan, and the
/// launches, all of them in the plan's order.
pub proof fn law_a_ready_plan_is_whole(p: PlanView, weights_len: usize)
    requires
        building(p, weights_len).stop is None,
    ensures
        ({
            let all = building(p, weights_len).commands;
            let launches = chain(preparations(p), p.launches.len()).commands;
            &&& all == seq![
                CommandView::AllocWeights(usm_bytes(weights_len)),
                CommandView::UploadWeights,
            ] + memory_commands(p) + program_commands(p) + launches
            &&& forall|k: int|
                0 <= k < all.len() && k != 1 ==> #[trigger] all[k] != CommandView::UploadWeights
        }),
{
    let l = listed(p);
    let memory = seq![
        CommandView::AllocWeights(usm_bytes(weights_len)),
        CommandView::UploadWeights,
    ];
    let allocations = chain(bindings(l, weights_len), l.len()).commands;
    let programs = program_commands(p);
    let launches = chain(preparations(p), p.launches.len()).commands;
    let all = building(p, weights_len).commands;
    assert(all =~= memory + allocations + programs + launches);
    lemma_allocations(p, weights_len, l.len());
    assert(memory_commands(p).take(memory_commands(p).len() as int) =~= memory_commands(p));
    lemma_chain_runs_through(bindings(l, weights_len), l.len());
    lemma_chain_runs_through(preparations(p), p.launches.len());
    assert forall|k: int| 0 <= k < all.len() && k != 1 implies #[trigger] all[k]
        != CommandView::UploadWeights by {
        let m = memory.len() as int;
        let a = allocations.len() as int;
        let c = all[k];
        if m <= k < m + a {
            assert(allocations[k - m] == c);
            assert(allocations.contains(c));
            let i = choose|i: int|
                0 <= i < l.len() && (#[trigger] bindings(l, weights_len)(i)).commands.contains(c);
            assert(binding(l, weights_len, i).commands.contains(c));
        } else if k >= m + a + programs.len() {
            assert(launches[k - m - a - programs.len()] == c);
            assert(launches.contains(c));
            let i = choose|i: int|
                0 <= i < p.launches.len() && (#[trigger] preparations(p)(i)).commands.contains(c);
            assert(preparations(p)(i).stop is None);
            law_every_argument_is_bound_once(l, p.programs, p.launches[i]);
            let cs = preparation(l, p.programs, p.launches[i]).commands;
            let n = choose|n: int| 0 <= n < cs.len() && cs[n] == c;
            if n > 0 {
                assert(argument(l, p.launches[i].args, n - 1).commands[0] == c);
            }
        } else if k >= m + a {
            assert(programs[k - m - a] == c);
        }
    }
}

proof fn lemma_allocations(p: PlanView, weights_len: usize, n: nat)
    requires
        n <= listed(p).len(),
        chain(bindings(listed(p), weights_len), n).stop is None,
    ensures
        chain(bindings(listed(p), weights_len), n).commands == memory_commands(p).take(
            if n <= p.weights.len() {
                0
            } else {
                n - p.weights.len()
            },
        ),
    decreases n,
{
    let f = bindings(listed(p), weights_len);
    if n > 0 {
        lemma_allocations(p, weights_len, (n - 1) as nat);
        assert(f(n - 1) == binding(listed(p), weights_len, n - 1));
        let k = n - 1 - p.weights.len();
        if k >= 0 {
            assert(f(n - 1).commands =~= seq![memory_commands(p)[k]]);
            assert(memory_commands(p).take(k + 1) =~= memory_commands(p).take(k) + seq![
                memory_commands(p)[k],
            ]);
        } else {
            assert(chain(f, n).commands =~= memory_commands(p).take(0));
        }
    } else {
        assert(chain(f, n).commands =~= memory_commands(p).take(0));
    }
}

/// A launch that can be prepared is of a program of the plan. Its kernel is
/// created, and then every argument is bound, once each, under its own index.
pub proof fn law_every_argument_is_bound_once(
    l: Seq<Listed>,
    programs: Seq<usize>,
    launch: LaunchView,
)
    requires
        preparation(l, programs, launch).stop is None,
    ensures
        programs.contains(launch.program),
        preparation(l, programs, launch).commands.len() == launch.args.len() + 1,
        preparation(l, programs, launch).commands[0] == (CommandView::CreateKernel {
            program: launch.program,
            name: launch.name,
        }),
        forall|j: int|
            0 <= j < launch.args.len() ==> #[trigger] argument(l, launch.args, j).commands == seq![
                preparation(l, programs, launch).commands[j + 1],
            ],
{
    let create = seq![
        CommandView::CreateKernel { program: launch.program, name: launch.name },
    ];
    lemma_bound_arguments(l, launch.args, launch.args.len());
    let rest = chain(arguments(l, launch.args), launch.args.len()).commands;
    assert(preparation(l, programs, launch).commands == create + rest);
    assert forall|j: int| 0 <= j < launch.args.len() implies #[trigger] argument(
        l,
        launch.args,
        j,
    ).commands == seq![preparation(l, programs, launch).commands[j + 1]] by {
        assert((create + rest)[j + 1] == rest[j]);
    }
}

proof fn lemma_bound_arguments(l: Seq<Listed>, args: Seq<ArgView>, n: nat)
    requires
        n <= args.len(),
        chain(arguments(l, args), n).stop is None,
    ensures
        chain(arguments(l, args), n).commands.len() == n,
        forall|j: int|
            0 <= j < n ==> #[trigger] argument(l, args, j).commands == seq![
                chain(arguments(l, args), n).commands[j],
            ],
    decreases n,
{
    if n > 0 {
        lemma_bound_arguments(l, args, (n - 1) as nat);
        let f = arguments(l, args);
        let a = chain(f, (n - 1) as nat).commands;
        assert(f(n - 1) == argument(l, args, n - 1));
        assert forall|j: int| 0 <= j < n implies #[trigger] argument(l, args, j).commands == seq![
            chain(f, n).commands[j],
        ] by {
            if j < n - 1 {
                assert(chain(f, n).commands[j] == a[j]);
            }
        }
    }
}

/// Nothing of a command is lost in its view.
pub proof fn law_commands_are_seen_whole(c: Command)
    ensures
        match c {
            Command::AllocWeights(n) => c@ == CommandView::AllocWeights(n),
            Command::UploadWeights => c@ == CommandView::UploadWeights,
            Command::AllocDevice(n) => c@ == CommandView::AllocDevice(n),
            Command::AllocHost(n) => c@ == CommandView::AllocHost(n),
            Command::LoadProgram { program, file } => c@ == (CommandView::LoadProgram {
                program,
                file: file@,
            }),
            Command::CreateKernel { program, name } => c@ == (CommandView::CreateKernel {
                program,
                name: name@,
            }),
            Command::BindPtr { index, at } => c@ == (CommandView::BindPtr { index, at }),
            Command::BindValue { index, bytes } => c@ == (CommandView::BindValue {
                index,
                bytes: bytes@,
            }),
            Command::BindLocal { index, size } => c@ == (CommandView::BindLocal { index, size }),
            Command::BindNull { index } => c@ == (CommandView::BindNull { index }),
        },
{
}

/// Each program is loaded once, in the plan's order, from the file of its
/// number.
pub proof fn law_programs_are_loaded_from_their_files(p: PlanView)
    ensures
        program_commands(p).len() == p.programs.len(),
        forall|i: int|
            0 <= i < p.programs.len() ==> #[trigger] program_commands(p)[i] == (
            CommandView::LoadProgram {
                program: p.programs[i],
                file: "prog_"@ + decimal(p.programs[i] as int) + ".bin"@,
            }),
{
}

/// The identifiers of a plan's allocations, in the order in which they are
/// brought up.
pub open spec fn identifiers(p: PlanView) -> Seq<usize> {
    (p.weights + p.scratch + p.host).map_values(|g: Region| g.id)
}

/// Nothing is wrong with the first `k` allocations.
proof fn lemma_good_allocations(p: PlanView, weights_len: usize, k: int)
    requires
        0 <= k <= identifiers(p).len(),
        identifiers(p).take(k).no_duplicates(),
        forall|i: int|
            0 <= i < k && i < p.weights.len() ==> (#[trigger] p.weights[i]).off + p.weights[i].size
                <= weights_len,
    ensures
        forall|i: int| 0 <= i < k ==> #[trigger] listing_fault(listed(p), weights_len, i) is None,
        chain(bindings(listed(p), weights_len), k as nat).stop is None,
    decreases k,
{
    let l = listed(p);
    let ids = identifiers(p);
    if k > 0 {
        assert(ids.take(k - 1) =~= ids.take(k).take(k - 1));
        assert forall|i: int, j: int| 0 <= i < j < k - 1 implies #[trigger] ids.take(k - 1)[i]
            != #[trigger] ids.take(k - 1)[j] by {
            assert(ids.take(k)[i] == ids.take(k - 1)[i]);
            assert(ids.take(k)[j] == ids.take(k - 1)[j]);
        }
        lemma_good_allocations(p, weights_len, k - 1);
        lemma_listed_before(p, k - 1);
        if slot_of(l.take(k - 1), l[k - 1].id) is Some {
            let i = choose|i: int| 0 <= i < k - 1 && #[trigger] ids[i] == ids[k - 1];
            assert(ids.take(k)[i] == ids[i]);
            assert(ids.take(k)[k - 1] == ids[k - 1]);
        }
        let f = bindings(l, weights_len);
        assert(f(k - 1) == binding(l, weights_len, k - 1));
        assert(listing_fault(l, weights_len, k - 1) is None);
    }
}

/// An allocation has a slot already exactly where its identifier came before.
proof fn lemma_listed_before(p: PlanView, k: int)
    requires
        0 <= k < identifiers(p).len(),
    ensures
        identifiers(p).len() == listed(p).len(),
        listed(p)[k].id == identifiers(p)[k],
        slot_of(listed(p).take(k), listed(p)[k].id) is Some <==> exists|i: int|
            0 <= i < k && #[trigger] identifiers(p)[i] == identifiers(p)[k],
{
    let l = listed(p);
    let ids = identifiers(p);
    let all = p.weights + p.scratch + p.host;
    assert forall|i: int| 0 <= i < all.len() implies (#[trigger] l[i]).id == ids[i] by {
        assert(ids[i] == all[i].id);
    }
    lemma_slot_of(l.take(k), l[k].id);
    if slot_of(l.take(k), l[k].id) is Some {
        let i = choose|i: int| 0 <= i < l.take(k).len() && (#[trigger] l.take(k)[i]).id == l[k].id;
        assert(l.take(k)[i] == l[i]);
        assert(ids[i] == ids[k]);
    } else {
        assert forall|i: int| 0 <= i < k implies #[trigger] ids[i] != ids[k] by {
            assert(l.take(k)[i] == l[i]);
        }
    }
}

/// A plan whose constants lie inside `weights.bin`, and whose identifiers are
/// distinct, is made ready as far as its launches: memory for the constants, at
/// least a byte, and their upload; memory for each scratch and each host
/// allocation, of its size or a byte; each program from its file. All of it is
/// done in the plan's order, and nothing else.
pub proof fn law_memory_and_programs_come_first(p: PlanView, weights_len: usize)
    requires
        p.launches.len() == 0,
        identifiers(p).no_duplicates(),
        forall|i: int|
            0 <= i < p.weights.len() ==> (#[trigger] p.weights[i]).off + p.weights[i].size
                <= weights_len,
    ensures
        building(p, weights_len).stop is None,
        building(p, weights_len).commands.len() == 2 + p.scratch.len() + p.host.len()
            + p.programs.len(),
        building(p, weights_len).commands[0] == CommandView::AllocWeights(
            if weights_len == 0 {
                1
            } else {
                weights_len
            },
        ),
        building(p, weights_len).commands[1] == CommandView::UploadWeights,
        forall|i: int| #![trigger p.scratch[i]]
            0 <= i < p.scratch.len() ==> building(p, weights_len).commands[2 + i]
                == CommandView::AllocDevice(
                if p.scratch[i].size == 0 {
                    1
                } else {
                    p.scratch[i].size
                },
            ),
        forall|i: int| #![trigger p.host[i]]
            0 <= i < p.host.len() ==> building(p, weights_len).commands[2 + p.scratch.len() + i]
                == CommandView::AllocHost(
                if p.host[i].size == 0 {
                    1
                } else {
                    p.host[i].size
                },
            ),
        forall|i: int| #![trigger p.programs[i]]
            0 <= i < p.programs.len() ==> building(p, weights_len).commands[2 + p.scratch.len()
                + p.host.len() + i] == (CommandView::LoadProgram {
                program: p.programs[i],
                file: "prog_"@ + decimal(p.programs[i] as int) + ".bin"@,
            }),
{
    let l = listed(p);
    let ids = identifiers(p);
    assert(ids.take(ids.len() as int) =~= ids);
    lemma_good_allocations(p, weights_len, ids.len() as int);
    assert(l.len() == ids.len());
    assert(chain(preparations(p), 0).stop is None);
    law_a_ready_plan_is_whole(p, weights_len);
    let all = building(p, weights_len).commands;
    let m = memory_commands(p);
    let c = program_commands(p);
    assert(all =~= seq![
        CommandView::AllocWeights(usm_bytes(weights_len)),
        CommandView::UploadWeights,
    ] + m + c);
    assert forall|i: int| #![trigger p.scratch[i]] 0 <= i < p.scratch.len() implies all[2 + i]
        == CommandView::AllocDevice(
        if p.scratch[i].size == 0 {
            1
        } else {
            p.scratch[i].size
        },
    ) by {
        assert(all[2 + i] == m[i]);
    }
    assert forall|i: int| #![trigger p.host[i]] 0 <= i < p.host.len() implies all[2
        + p.scratch.len() + i] == CommandView::AllocHost(
        if p.host[i].size == 0 {
            1
        } else {
            p.host[i].size
        },
    ) by {
        assert(all[2 + p.scratch.len() + i] == m[p.scratch.len() + i]);
    }
    assert forall|i: int| #![trigger p.programs[i]] 0 <= i < p.programs.len() implies all[2
        + p.scratch.len() + p.host.len() + i] == (CommandView::LoadProgram {
        program: p.programs[i],
        file: "prog_"@ + decimal(p.programs[i] as int) + ".bin"@,
    }) by {
        assert(all[2 + p.scratch.len() + p.host.len() + i] == c[i]);
    }
}

/// The first allocation that is wrong ends the work: a constant outside
/// `weights.bin` is named as that, and an identifier that came before as one
/// that comes twice. What was done until then is the memory for the constants
/// and for every scratch and host allocation up to this one, itself among them.
pub proof fn law_a_wrong_allocation_ends_the_work(p: PlanView, weights_len: usize, k: int)
    requires
        0 <= k < identifiers(p).len(),
        identifiers(p).take(k).no_duplicates(),
        forall|i: int|
            0 <= i < k && i < p.weights.len() ==> (#[trigger] p.weights[i]).off + p.weights[i].size
                <= weights_len,
    ensures
        ({
            let id = identifiers(p)[k];
            let outside = k < p.weights.len() && p.weights[k].off + p.weights[k].size > weights_len;
            let b = building(p, weights_len);
            &&& outside ==> b.stop == Some(
                ErrorView::Parse {
                    path: "replay.txt"@,
                    message: "allocation "@ + decimal(id as int) + " lies outside weights.bin"@,
                },
            )
            &&& !outside && identifiers(p).take(k).contains(id) ==> b.stop == Some(
                ErrorView::Parse {
                    path: "replay.txt"@,
                    message: "allocation "@ + decimal(id as int) + " listed twice"@,
                },
            )
            &&& outside || identifiers(p).take(k).contains(id) ==> b.commands == seq![
                CommandView::AllocWeights(usm_bytes(weights_len)),
                CommandView::UploadWeights,
            ] + memory_commands(p).take(
                if k < p.weights.len() {
                    0
                } else {
                    k - p.weights.len() + 1
                },
            )
        }),
{
    let l = listed(p);
    let ids = identifiers(p);
    let id = ids[k];
    let f = bindings(l, weights_len);
    lemma_good_allocations(p, weights_len, k);
    lemma_listed_before(p, k);
    lemma_allocations(p, weights_len, k as nat);
    assert(f(k) == binding(l, weights_len, k));
    assert(chain(f, (k + 1) as nat) == before(chain(f, k as nat), f(k)));
    if ids.take(k).contains(id) {
        let i = choose|i: int| 0 <= i < k && ids.take(k)[i] == id;
        assert(ids[i] == ids[k]);
    }
    let outside = k < p.weights.len() && p.weights[k].off + p.weights[k].size > weights_len;
    if outside || ids.take(k).contains(id) {
        lemma_chain_stays_stopped(f, (k + 1) as nat, l.len());
        let m = memory_commands(p);
        let done = chain(f, k as nat).commands;
        let j = k - p.weights.len();
        if j >= 0 {
            assert(f(k).commands =~= seq![m[j]]);
            assert(m.take(j + 1) =~= m.take(j) + seq![m[j]]);
        } else {
            assert(done + f(k).commands =~= m.take(0));
        }
        let first = seq![
            CommandView::AllocWeights(usm_bytes(weights_len)),
            CommandView::UploadWeights,
        ];
        assert(building(p, weights_len).commands == first + chain(f, l.len()).commands);
    }
}

/// Rows that agree as far as they are chained are the same.
proof fn lemma_chains_agree<C>(f: spec_fn(int) -> Trace<C>, g: spec_fn(int) -> Trace<C>, n: nat)
    requires
        forall|i: int| 0 <= i < n ==> #[trigger] f(i) == g(i),
    ensures
        chain(f, n) == chain(g, n),
    decreases n,
{
    if n > 0 {
        lemma_chains_agree(f, g, (n - 1) as nat);
        assert(f(n - 1) == g(n - 1));
    }
}

proof fn lemma_chain_does_not_stop<C>(f: spec_fn(int) -> Trace<C>, n: nat)
    requires
        forall|i: int| 0 <= i < n ==> (#[trigger] f(i)).stop is None,
    ensures
        chain(f, n).stop is None,
    decreases n,
{
    if n > 0 {
        lemma_chain_does_not_stop(f, (n - 1) as nat);
        assert(f(n - 1).stop is None);
    }
}

/// What makes a plan ready with more launches than another begins with what
/// makes the other ready.
proof fn lemma_more_launches(
    p: PlanView,
    launch: LaunchView,
    more: Seq<LaunchView>,
    weights_len: usize,
)
    requires
        building(p, weights_len).stop is None,
    ensures
        ({
            let q = PlanView { launches: p.launches.push(launch) + more, ..p };
            let last = preparation(listed(p), p.programs, launch);
            &&& (more.len() == 0 || last.stop is Some) ==> {
                &&& building(q, weights_len).commands == building(p, weights_len).commands
                    + last.commands
                &&& building(q, weights_len).stop == last.stop
            }
        }),
{
    let q = PlanView { launches: p.launches.push(launch) + more, ..p };
    let n = p.launches.len();
    let f = preparations(p);
    let g = preparations(q);
    assert(listed(q) =~= listed(p));
    assert(program_commands(q) =~= program_commands(p));
    assert forall|i: int| 0 <= i < n implies #[trigger] f(i) == g(i) by {
        assert(q.launches[i] == p.launches[i]);
    }
    lemma_chains_agree(f, g, n);
    assert(q.launches[n as int] == launch);
    let last = preparation(listed(p), p.programs, launch);
    assert(g(n as int) == last);
    assert(chain(g, n + 1) == before(chain(f, n), last));
    if last.stop is Some {
        lemma_chain_stays_stopped(g, n + 1, q.launches.len());
    }
    if more.len() == 0 || last.stop is Some {
        let a = building(p, weights_len).commands;
        let b = building(q, weights_len).commands;
        assert(b =~= a + last.commands);
    }
}

proof fn lemma_arguments_fit(l: Seq<Listed>, args: Seq<ArgView>, k: int)
    requires
        0 <= k <= args.len(),
        k <= 0x1_0000_0000,
        forall|j: int|
            0 <= j < k ==> ((#[trigger] args[j]) matches ArgView::Ptr { alloc, off } ==> located(
                l,
                alloc,
                off,
                0,
            ) is Ok),
    ensures
        chain(arguments(l, args), k as nat).stop is None,
        chain(arguments(l, args), k as nat).commands.len() == k,
        forall|j: int|
            0 <= j < k ==> (#[trigger] chain(arguments(l, args), k as nat).commands[j])
                == match args[j] {
                ArgView::Ptr { alloc, off } => CommandView::BindPtr {
                    index: j as u32,
                    at: located(l, alloc, off, 0)->Ok_0.1,
                },
                ArgView::Value(bytes) => CommandView::BindValue { index: j as u32, bytes },
                ArgView::Local(size) => CommandView::BindLocal { index: j as u32, size },
                ArgView::Null => CommandView::BindNull { index: j as u32 },
            },
{
    let f = arguments(l, args);
    assert forall|j: int| 0 <= j < k implies (#[trigger] f(j)).stop is None by {
        assert(f(j) == argument(l, args, j));
        assert(args[j] matches ArgView::Ptr { alloc, off } ==> located(l, alloc, off, 0) is Ok);
    }
    lemma_chain_does_not_stop(f, k as nat);
    lemma_bound_arguments(l, args, k as nat);
    assert forall|j: int| 0 <= j < k implies (#[trigger] chain(f, k as nat).commands[j])
        == match args[j] {
        ArgView::Ptr { alloc, off } => CommandView::BindPtr {
            index: j as u32,
            at: located(l, alloc, off, 0)->Ok_0.1,
        },
        ArgView::Value(bytes) => CommandView::BindValue { index: j as u32, bytes },
        ArgView::Local(size) => CommandView::BindLocal { index: j as u32, size },
        ArgView::Null => CommandView::BindNull { index: j as u32 },
    } by {
        assert(argument(l, args, j).commands == seq![chain(f, k as nat).commands[j]]);
        assert(argument(l, args, j).commands[0] == chain(f, k as nat).commands[j]);
        assert(args[j] matches ArgView::Ptr { alloc, off } ==> located(l, alloc, off, 0) is Ok);
    }
}

/// One more launch of a program of the plan, under a name without a NUL, with
/// pointers into allocations of the plan, is made ready behind all that was
/// ready before it: its kernel is created under its name, and then each
/// argument is bound under its own index, as what it is. Bytes are bound as
/// they are, all of them; local memory with its size; a null pointer as one;
/// and a pointer at the place that its allocation and its offset give.
pub proof fn law_one_more_launch_is_made_ready(p: PlanView, launch: LaunchView, weights_len: usize)
    requires
        building(p, weights_len).stop is None,
        p.programs.contains(launch.program),
        forall|i: int| 0 <= i < launch.name.len() ==> launch.name[i] != '\0',
        launch.args.len() <= 0x1_0000_0000,
        forall|j: int|
            0 <= j < launch.args.len() ==> ((#[trigger] launch.args[j]) matches ArgView::Ptr {
                alloc,
                off,
            } ==> located(listed(p), alloc, off, 0) is Ok),
    ensures
        ({
            let q = PlanView { launches: p.launches.push(launch), ..p };
            let a = building(p, weights_len).commands;
            let b = building(q, weights_len).commands;
            let n = a.len();
            &&& building(q, weights_len).stop is None
            &&& b.len() == n + 1 + launch.args.len()
            &&& a.is_prefix_of(b)
            &&& b[n as int] == (CommandView::CreateKernel {
                program: launch.program,
                name: launch.name,
            })
            &&& forall|j: int| #![trigger launch.args[j]]
                0 <= j < launch.args.len() ==> b[n + 1 + j] == match launch.args[j] {
                    ArgView::Ptr { alloc, off } => CommandView::BindPtr {
                        index: j as u32,
                        at: located(listed(p), alloc, off, 0)->Ok_0.1,
                    },
                    ArgView::Value(bytes) => CommandView::BindValue { index: j as u32, bytes },
                    ArgView::Local(size) => CommandView::BindLocal { index: j as u32, size },
                    ArgView::Null => CommandView::BindNull { index: j as u32 },
                }
        }),
{
    let q = PlanView { launches: p.launches.push(launch), ..p };
    let a = building(p, weights_len).commands;
    let n = a.len();
    assert(p.launches.push(launch) + Seq::<LaunchView>::empty() =~= p.launches.push(launch));
    lemma_more_launches(p, launch, Seq::empty(), weights_len);
    law_kernel_names_hold_no_nul(launch.name);
    lemma_arguments_fit(listed(p), launch.args, launch.args.len() as int);
    let binds = chain(arguments(listed(p), launch.args), launch.args.len()).commands;
    let create = CommandView::CreateKernel { program: launch.program, name: launch.name };
    let b = building(q, weights_len).commands;
    assert(b =~= a + (seq![create] + binds));
    assert forall|j: int| #![trigger launch.args[j]] 0 <= j < launch.args.len() implies b[n + 1
        + j] == match launch.args[j] {
        ArgView::Ptr { alloc, off } => CommandView::BindPtr {
            index: j as u32,
            at: located(listed(p), alloc, off, 0)->Ok_0.1,
        },
        ArgView::Value(bytes) => CommandView::BindValue { index: j as u32, bytes },
        ArgView::Local(size) => CommandView::BindLocal { index: j as u32, size },
        ArgView::Null => CommandView::BindNull { index: j as u32 },
    } by {
        assert(b[n + 1 + j] == binds[j]);
    }
}

/// A launch that cannot be made ready ends the work, whatever comes behind it:
/// one of a program that the plan does not have, or under a name with a NUL,
/// before anything is done for it; one with a pointer to nowhere, or with more
/// arguments than can be counted, once its kernel and the arguments before have
/// been seen to.
pub proof fn law_a_wrong_launch_ends_the_work(
    p: PlanView,
    launch: LaunchView,
    more: Seq<LaunchView>,
    weights_len: usize,
    k: int,
)
    requires
        building(p, weights_len).stop is None,
    ensures
        ({
            let q = PlanView { launches: p.launches.push(launch) + more, ..p };
            let a = building(p, weights_len);
            let b = building(q, weights_len);
            let known = p.programs.contains(launch.program);
            let named = forall|i: int| 0 <= i < launch.name.len() ==> launch.name[i] != '\0';
            let until = 0 <= k < launch.args.len() && k <= 0x1_0000_0000 && forall|j: int|
                0 <= j < k ==> ((#[trigger] launch.args[j]) matches ArgView::Ptr { alloc, off }
                    ==> located(listed(p), alloc, off, 0) is Ok);
            &&& !known ==> b.commands == a.commands && b.stop == Some(
                ErrorView::Parse {
                    path: "replay.txt"@,
                    message: "no program "@ + decimal(launch.program as int),
                },
            )
            &&& known && !named ==> b.commands == a.commands && b.stop == Some(
                ErrorView::Cl(ClErrorView { call: "clCreateKernel"@, code: 0 }),
            )
            &&& known && named && until && k == 0x1_0000_0000 ==> b.commands.len()
                == a.commands.len() + 1 + k && b.stop == Some(
                ErrorView::Parse { path: "replay.txt"@, message: "too many arguments"@ },
            )
            &&& known && named && until && k < 0x1_0000_0000 ==> (
            launch.args[k] matches ArgView::Ptr { alloc, off } ==> (located(
                listed(p),
                alloc,
                off,
                0,
            ) matches Err(m) ==> b.commands.len() == a.commands.len() + 1 + k && b.stop == Some(
                ErrorView::Parse { path: "replay.txt"@, message: m },
            )))
        }),
{
    lemma_more_launches(p, launch, more, weights_len);
    law_kernel_names_hold_no_nul(launch.name);
    let l = listed(p);
    let a = building(p, weights_len);
    assert(a.commands + Seq::<CommandView>::empty() =~= a.commands);
    let known = p.programs.contains(launch.program);
    let named = forall|i: int| 0 <= i < launch.name.len() ==> launch.name[i] != '\0';
    let until = 0 <= k < launch.args.len() && k <= 0x1_0000_0000 && forall|j: int|
        0 <= j < k ==> ((#[trigger] launch.args[j]) matches ArgView::Ptr { alloc, off } ==> located(
            l,
            alloc,
            off,
            0,
        ) is Ok);
    if known && named && until {
        lemma_arguments_fit(l, launch.args, k);
        let f = arguments(l, launch.args);
        assert(f(k) == argument(l, launch.args, k));
        assert(chain(f, (k + 1) as nat) == before(chain(f, k as nat), f(k)));
        if f(k).stop is Some {
            lemma_chain_stays_stopped(f, (k + 1) as nat, launch.args.len());
        }
    }
}

} // verus!
