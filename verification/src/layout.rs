//! Where the allocations of a recording lie on the device.

use vstd::prelude::*;

use crate::error::{Error, ErrorView};
use crate::number::{decimal, write_decimal};
use crate::plan::{largest_alloc_id, largest_id, Plan, PlanView, Region};

verus! {

/// The file whose text the plan is.
pub const REPLAY_FILE: &'static str = "replay.txt";

/// The memory that a recording takes on the device: one buffer for all the
/// constants, and one for each scratch and each host allocation, by its place
/// in the plan.
#[derive(Clone, Copy, Debug, PartialEq, Eq, Structural)]
pub enum Buffer {
    Weights,
    Scratch(usize),
    Host(usize),
}

/// `off` bytes into a buffer.
#[derive(Clone, Copy, Debug, PartialEq, Eq, Structural)]
pub struct Place {
    pub buffer: Buffer,
    pub off: usize,
}

/// One allocation of the recording, as bound on this device.
#[derive(Clone, Copy, Debug, PartialEq, Eq, Structural)]
pub struct Slot {
    pub place: Place,
    pub size: usize,
    pub host: bool,
}

/// An allocation under its identifier.
pub struct Listed {
    pub id: usize,
    pub slot: Slot,
}

pub open spec fn weights_slot(w: Region) -> Slot {
    Slot { place: Place { buffer: Buffer::Weights, off: w.off }, size: w.size, host: false }
}

pub open spec fn scratch_slot(i: int, s: Region) -> Slot {
    Slot {
        place: Place { buffer: Buffer::Scratch(i as usize), off: 0 },
        size: s.size,
        host: false,
    }
}

pub open spec fn host_slot(i: int, h: Region) -> Slot {
    Slot { place: Place { buffer: Buffer::Host(i as usize), off: 0 }, size: h.size, host: true }
}

/// The allocations of a plan, in the order in which they are bound: the
/// constants, then scratch, then host memory.
pub open spec fn listed(p: PlanView) -> Seq<Listed> {
    Seq::new(
        p.weights.len() + p.scratch.len() + p.host.len(),
        |i: int|
            if i < p.weights.len() {
                Listed { id: p.weights[i].id, slot: weights_slot(p.weights[i]) }
            } else if i < p.weights.len() + p.scratch.len() {
                let j = i - p.weights.len();
                Listed { id: p.scratch[j].id, slot: scratch_slot(j, p.scratch[j]) }
            } else {
                let j = i - p.weights.len() - p.scratch.len();
                Listed { id: p.host[j].id, slot: host_slot(j, p.host[j]) }
            },
    )
}

/// The slot of the first allocation with this identifier.
pub open spec fn slot_of(l: Seq<Listed>, id: usize) -> Option<Slot>
    decreases l.len(),
{
    if l.len() == 0 {
        None
    } else {
        match slot_of(l.drop_last(), id) {
            Some(s) => Some(s),
            None => if l.last().id == id {
                Some(l.last().slot)
            } else {
                None
            },
        }
    }
}

/// A slot is that of an allocation in the list, and there is one for each.
pub proof fn lemma_slot_of(l: Seq<Listed>, id: usize)
    ensures
        slot_of(l, id) matches Some(s) ==> exists|i: int|
            0 <= i < l.len() && (#[trigger] l[i]).id == id && l[i].slot == s,
        slot_of(l, id) is None ==> forall|i: int| 0 <= i < l.len() ==> (#[trigger] l[i]).id != id,
    decreases l.len(),
{
    if l.len() > 0 {
        let p = l.drop_last();
        lemma_slot_of(p, id);
        if slot_of(l, id) is Some {
            if slot_of(p, id) is Some {
                let i = choose|i: int|
                    0 <= i < p.len() && (#[trigger] p[i]).id == id && p[i].slot == slot_of(
                        p,
                        id,
                    )->0;
                assert(l[i] == p[i]);
            } else {
                assert(l[l.len() - 1].id == id);
            }
        } else {
            assert forall|i: int| 0 <= i < l.len() implies (#[trigger] l[i]).id != id by {
                if i < l.len() - 1 {
                    assert(p[i] == l[i]);
                }
            }
        }
    }
}

/// What is wrong with the plan's text.
pub open spec fn plan_error(message: Seq<char>) -> ErrorView {
    ErrorView::Parse { path: REPLAY_FILE@, message }
}

pub fn plan_err(message: String) -> (r: Error)
    ensures
        r@ == plan_error(message@),
{
    Error::Parse { path: REPLAY_FILE.to_owned(), message }
}

/// What is wrong with the allocation at `i` of the list: a constant must lie
/// inside `weights.bin`, and no identifier may come twice.
pub open spec fn listing_fault(l: Seq<Listed>, weights_len: usize, i: int) -> Option<ErrorView> {
    let e = l[i];
    if e.slot.place.buffer is Weights && e.slot.place.off + e.slot.size > weights_len {
        Some(plan_error("allocation "@ + decimal(e.id as int) + " lies outside weights.bin"@))
    } else if slot_of(l.take(i), e.id) is Some {
        Some(plan_error("allocation "@ + decimal(e.id as int) + " listed twice"@))
    } else {
        None
    }
}

/// Nothing is wrong with the first `n` allocations of the list.
pub open spec fn sound(l: Seq<Listed>, weights_len: usize, n: int) -> bool {
    forall|i: int| 0 <= i < n ==> #[trigger] listing_fault(l, weights_len, i) is None
}

/// A place `off` bytes into allocation `id`, `len` bytes of which must lie
/// inside it.
pub open spec fn located(l: Seq<Listed>, id: usize, off: usize, len: usize) -> Result<
    (Slot, Place),
    Seq<char>,
> {
    match slot_of(l, id) {
        None => Err("allocation "@ + decimal(id as int) + " missing"@),
        Some(s) => if off + len > s.size {
            Err(
                decimal(len as int) + " bytes at "@ + decimal(off as int) + " overrun allocation "@
                    + decimal(id as int) + " of "@ + decimal(s.size as int),
            )
        } else {
            Ok((s, Place { buffer: s.place.buffer, off: (s.place.off + off) as usize }))
        },
    }
}

/// How many bytes a buffer holds.
pub open spec fn buffer_len(p: PlanView, weights_len: usize, b: Buffer) -> int {
    match b {
        Buffer::Weights => weights_len as int,
        Buffer::Scratch(i) => p.scratch[i as int].size as int,
        Buffer::Host(i) => p.host[i as int].size as int,
    }
}

/// A buffer that the plan has.
pub open spec fn is_buffer(p: PlanView, b: Buffer) -> bool {
    match b {
        Buffer::Weights => true,
        Buffer::Scratch(i) => i < p.scratch.len(),
        Buffer::Host(i) => i < p.host.len(),
    }
}

/// `len` bytes from a place on lie inside its buffer.
pub open spec fn inside(p: PlanView, weights_len: usize, at: Place, len: int) -> bool {
    is_buffer(p, at.buffer) && at.off + len <= buffer_len(p, weights_len, at.buffer)
}

/// A plan's lists are no longer than memory lets a list be.
pub open spec fn fits_memory(p: PlanView) -> bool {
    p.scratch.len() <= usize::MAX && p.host.len() <= usize::MAX
}

/// Where nothing is wrong with the list, each slot lies inside its buffer,
/// and host slots alone are host memory.
proof fn lemma_slot_inside(p: PlanView, weights_len: usize, n: int, id: usize)
    requires
        fits_memory(p),
        0 <= n <= listed(p).len(),
        sound(listed(p), weights_len, n),
    ensures
        slot_of(listed(p).take(n), id) matches Some(s) ==> inside(
            p,
            weights_len,
            s.place,
            s.size as int,
        ) && (s.host <==> s.place.buffer is Host),
{
    let l = listed(p).take(n);
    lemma_slot_of(l, id);
    if slot_of(l, id) is Some {
        let s = slot_of(l, id)->0;
        let i = choose|i: int| 0 <= i < l.len() && (#[trigger] l[i]).id == id && l[i].slot == s;
        assert(l[i] == listed(p)[i]);
        assert(listing_fault(listed(p), weights_len, i) is None);
    }
}

/// What `located` finds lies inside its buffer, with all the bytes that were
/// asked for.
pub proof fn law_located_places_are_inside(
    p: PlanView,
    weights_len: usize,
    id: usize,
    off: usize,
    len: usize,
)
    requires
        fits_memory(p),
        sound(listed(p), weights_len, listed(p).len() as int),
    ensures
        located(listed(p), id, off, len) matches Ok((s, at)) ==> inside(
            p,
            weights_len,
            at,
            len as int,
        ) && at.buffer == s.place.buffer && at.off == s.place.off + off && (s.host
            <==> at.buffer is Host),
{
    assert(listed(p).take(listed(p).len() as int) =~= listed(p));
    lemma_slot_inside(p, weights_len, listed(p).len() as int, id);
}

/// Where nothing is wrong with the list, no identifier comes twice.
pub proof fn law_identifiers_are_distinct(l: Seq<Listed>, weights_len: usize, i: int, j: int)
    requires
        sound(l, weights_len, l.len() as int),
        0 <= i < j < l.len(),
    ensures
        l[i].id != l[j].id,
{
    assert(listing_fault(l, weights_len, j) is None);
    lemma_slot_of(l.take(j), l[j].id);
    assert(l.take(j)[i] == l[i]);
}

proof fn lemma_largest_id(regions: Seq<Region>, i: int)
    requires
        0 <= i < regions.len(),
    ensures
        regions[i].id <= largest_id(regions),
    decreases regions.len(),
{
    if i < regions.len() - 1 {
        assert(regions.drop_last()[i] == regions[i]);
        lemma_largest_id(regions.drop_last(), i);
    }
}

/// No allocation has a larger identifier than the largest, and one has it.
pub proof fn law_largest_alloc_id(p: PlanView)
    ensures
        forall|i: int|
            0 <= i < listed(p).len() ==> (#[trigger] listed(p)[i]).id <= largest_alloc_id(p),
        listed(p).len() > 0 ==> exists|i: int|
            0 <= i < listed(p).len() && (#[trigger] listed(p)[i]).id == largest_alloc_id(p),
        listed(p).len() == 0 ==> largest_alloc_id(p) == 0,
{
    let all = p.weights + p.scratch + p.host;
    assert(all.len() == listed(p).len());
    assert forall|i: int| 0 <= i < all.len() implies listed(p)[i].id == (#[trigger] all[i]).id by {}
    assert forall|i: int| 0 <= i < listed(p).len() implies (#[trigger] listed(p)[i]).id
        <= largest_alloc_id(p) by {
        lemma_largest_id(all, i);
        assert(all[i].id == listed(p)[i].id);
    }
    if all.len() > 0 {
        lemma_largest_is_there(all);
        let i = choose|i: int| 0 <= i < all.len() && (#[trigger] all[i]).id == largest_id(all);
        assert(listed(p)[i].id == all[i].id);
    }
}

proof fn lemma_largest_is_there(regions: Seq<Region>)
    requires
        regions.len() > 0,
    ensures
        exists|i: int|
            0 <= i < regions.len() && (#[trigger] regions[i]).id == largest_id(regions),
    decreases regions.len(),
{
    let p = regions.drop_last();
    if regions.last().id > largest_id(p) {
        assert(regions[regions.len() - 1].id == largest_id(regions));
    } else if p.len() > 0 {
        lemma_largest_is_there(p);
        let i = choose|i: int| 0 <= i < p.len() && (#[trigger] p[i]).id == largest_id(p);
        assert(regions[i] == p[i]);
    } else {
        assert(regions[0].id == 0);
    }
}

/// The slots that are bound so far, by identifier. Their view is the list of
/// the allocations, in the order in which they were bound.
pub struct Slots {
    table: Vec<Option<Slot>>,
    list: Ghost<Seq<Listed>>,
}

impl View for Slots {
    type V = Seq<Listed>;

    closed spec fn view(&self) -> Seq<Listed> {
        self.list@
    }
}

/// The end of a slot is an offset that can be written down.
pub open spec fn ends_in_memory(s: Slot) -> bool {
    s.place.off + s.size <= usize::MAX
}

impl Slots {
    /// The table holds the slots of the list.
    pub closed spec fn valid(&self) -> bool {
        &&& forall|id: usize|
            #![trigger slot_of(self@, id)]
            slot_of(self@, id) == if id < self.table@.len() {
                self.table@[id as int]
            } else {
                None
            }
        &&& forall|id: int|
            0 <= id < self.table@.len() ==> ((#[trigger] self.table@[id]) matches Some(s)
                ==> ends_in_memory(s))
    }

    /// The largest identifier that the table has room for.
    pub closed spec fn room(&self) -> int {
        self.table@.len() - 1
    }

    /// A table without slots, with room for every identifier of the plan.
    pub fn new(plan: &Plan) -> (r: Self)
        requires
            largest_alloc_id(plan@) < usize::MAX,
        ensures
            r.valid(),
            r.room() == largest_alloc_id(plan@),
            r@ == Seq::<Listed>::empty(),
    {
        let n: usize = plan.max_alloc_id() + 1;
        let mut table: Vec<Option<Slot>> = Vec::new();
        let mut i: usize = 0;
        while i < n
            invariant
                i <= n,
                table@.len() == i,
                forall|j: int| 0 <= j < i ==> (#[trigger] table@[j]) is None,
            decreases n - i,
        {
            table.push(None);
            i += 1;
        }
        Slots { table, list: Ghost(Seq::empty()) }
    }

    /// Give an allocation its slot, where the table has room for it and it has
    /// none yet.
    pub fn bind(&mut self, id: usize, slot: Slot) -> (r: Result<(), Error>)
        requires
            old(self).valid(),
            ends_in_memory(slot),
        ensures
            final(self).valid(),
            final(self).room() == old(self).room(),
            match r {
                Ok(_) => id <= old(self).room() && slot_of(old(self)@, id) is None && final(self)@
                    == old(self)@.push(Listed { id, slot }),
                Err(e) => (id > old(self).room() || slot_of(old(self)@, id) is Some)
                    && final(self)@ == old(self)@ && e@ == plan_error(
                    "allocation "@ + decimal(id as int) + " listed twice"@,
                ),
            },
    {
        assert(slot_of(self@, id) == if id < self.table@.len() {
            self.table@[id as int]
        } else {
            None
        });
        if id >= self.table.len() || self.table[id].is_some() {
            let mut m: String = "allocation ".to_owned();
            m.append(write_decimal(id).as_str());
            m.append(" listed twice");
            return Err(plan_err(m));
        }
        let ghost before = self@;
        self.table[id] = Some(slot);
        proof {
            let after = before.push(Listed { id, slot });
            assert(after.drop_last() =~= before);
            self.list@ = after;
            assert forall|k: usize|
                #![trigger slot_of(after, k)]
                slot_of(after, k) == (if k < self.table@.len() {
                    self.table@[k as int]
                } else {
                    None
                }) by {
                assert(slot_of(before, k) == slot_of(after.drop_last(), k));
            }
        }
        Ok(())
    }

    /// A place `off` bytes into allocation `id`, `len` bytes of which must
    /// lie inside it.
    pub fn locate(&self, id: usize, off: usize, len: usize) -> (r: Result<(Slot, Place), String>)
        requires
            self.valid(),
        ensures
            match r {
                Ok(found) => located(self@, id, off, len) == Ok::<(Slot, Place), Seq<char>>(found),
                Err(m) => located(self@, id, off, len) == Err::<(Slot, Place), Seq<char>>(m@),
            },
    {
        let ghost known = slot_of(self@, id);
        let found: Option<Slot> = if id < self.table.len() {
            self.table[id]
        } else {
            None
        };
        assert(found == known);
        match found {
            None => {
                let mut m: String = "allocation ".to_owned();
                m.append(write_decimal(id).as_str());
                m.append(" missing");
                Err(m)
            },
            Some(s) => {
                if off > s.size || len > s.size - off {
                    let mut m: String = write_decimal(len);
                    m.append(" bytes at ");
                    m.append(write_decimal(off).as_str());
                    m.append(" overrun allocation ");
                    m.append(write_decimal(id).as_str());
                    m.append(" of ");
                    m.append(write_decimal(s.size).as_str());
                    Err(m)
                } else {
                    Ok((s, Place { buffer: s.place.buffer, off: s.place.off + off }))
                }
            },
        }
    }
}

// ---------------------------------------------------------------- laws

/// What is wrong with a plan is told of the file `replay.txt`.
pub proof fn law_plan_errors_name_the_file(message: Seq<char>)
    ensures
        plan_error(message) == (ErrorView::Parse { path: "replay.txt"@, message }),
{
}

proof fn lemma_first_slot(l: Seq<Listed>, k: int)
    requires
        0 <= k < l.len(),
        forall|i: int| 0 <= i < k ==> (#[trigger] l[i]).id != l[k].id,
    ensures
        slot_of(l, l[k].id) == Some(l[k].slot),
    decreases l.len(),
{
    let front = l.drop_last();
    if k < l.len() - 1 {
        assert forall|i: int| 0 <= i < k implies (#[trigger] front[i]).id != front[k].id by {
            assert(front[i] == l[i]);
        }
        lemma_first_slot(front, k);
    } else {
        lemma_slot_of(front, l[k].id);
        if slot_of(front, l[k].id) is Some {
            let i = choose|i: int| 0 <= i < front.len() && (#[trigger] front[i]).id == l[k].id;
            assert(l[i] == front[i]);
        }
    }
}

/// A place in an allocation is as far into its buffer as the allocation, and
/// so many bytes more; what is asked for must end inside the allocation. The
/// first allocation with the identifier is meant.
pub proof fn law_places_are_counted_from_the_allocation(
    l: Seq<Listed>,
    k: int,
    off: usize,
    len: usize,
)
    requires
        0 <= k < l.len(),
        forall|i: int| 0 <= i < k ==> (#[trigger] l[i]).id != l[k].id,
    ensures
        off + len <= l[k].slot.size ==> located(l, l[k].id, off, len) == Ok::<
            (Slot, Place),
            Seq<char>,
        >(
            (
                l[k].slot,
                Place {
                    buffer: l[k].slot.place.buffer,
                    off: (l[k].slot.place.off + off) as usize,
                },
            ),
        ),
        off + len > l[k].slot.size ==> located(l, l[k].id, off, len) == Err::<
            (Slot, Place),
            Seq<char>,
        >(
            decimal(len as int) + " bytes at "@ + decimal(off as int) + " overrun allocation "@
                + decimal(l[k].id as int) + " of "@ + decimal(l[k].slot.size as int),
        ),
{
    lemma_first_slot(l, k);
}

/// An identifier that no allocation has is missing.
pub proof fn law_a_missing_allocation_is_named(l: Seq<Listed>, id: usize, off: usize, len: usize)
    requires
        forall|i: int| 0 <= i < l.len() ==> (#[trigger] l[i]).id != id,
    ensures
        located(l, id, off, len) == Err::<(Slot, Place), Seq<char>>(
            "allocation "@ + decimal(id as int) + " missing"@,
        ),
{
    lemma_slot_of(l, id);
}

/// Every allocation of a plan is listed under its identifier, with its size:
/// constants where they are in the file, and each scratch and each host
/// allocation at the beginning of a buffer of its own. Host allocations, and
/// they alone, are host memory.
pub proof fn law_every_allocation_is_listed(p: PlanView)
    requires
        fits_memory(p),
    ensures
        listed(p).len() == p.weights.len() + p.scratch.len() + p.host.len(),
        forall|i: int|
            0 <= i < p.weights.len() ==> #[trigger] listed(p)[i] == (Listed {
                id: p.weights[i].id,
                slot: Slot {
                    place: Place { buffer: Buffer::Weights, off: p.weights[i].off },
                    size: p.weights[i].size,
                    host: false,
                },
            }),
        forall|i: int| #![trigger p.scratch[i]]
            0 <= i < p.scratch.len() ==> {
                let e = listed(p)[p.weights.len() + i];
                &&& e.id == p.scratch[i].id
                &&& e.slot.size == p.scratch[i].size
                &&& !e.slot.host
                &&& e.slot.place.off == 0
                &&& e.slot.place.buffer matches Buffer::Scratch(n)
                &&& n == i
            },
        forall|i: int| #![trigger p.host[i]]
            0 <= i < p.host.len() ==> {
                let e = listed(p)[p.weights.len() + p.scratch.len() + i];
                &&& e.id == p.host[i].id
                &&& e.slot.size == p.host[i].size
                &&& e.slot.host
                &&& e.slot.place.off == 0
                &&& e.slot.place.buffer matches Buffer::Host(n)
                &&& n == i
            },
{
}

} // verus!
