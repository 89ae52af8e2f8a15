//! What `OpenCL` is asked for, and what its answers mean.

use vstd::prelude::*;
use vstd::utf8::{decode_utf8, valid_utf8};

use crate::number::{decimal, law_decimals_read_back, number, write_number};
use crate::text::{chars_of, text_of};

verus! {

/// The code of a call that did what it was asked.
pub const CL_SUCCESS: i32 = 0;

/// The code for a search that found no device.
pub const CL_DEVICE_NOT_FOUND: i32 = -1;

/// The device's own number, as `cl_intel_device_attribute_query` names it.
pub const CL_DEVICE_ID_INTEL: u32 = 0x4251;

/// How many platforms a search looks at.
pub const MAX_PLATFORMS: u32 = 16;

/// A call that failed, and its code.
#[derive(Clone, Copy, Debug)]
pub struct ClError {
    pub call: &'static str,
    pub code: i32,
}

/// A `ClError`, its text taken as a sequence.
pub struct ClErrorView {
    pub call: Seq<char>,
    pub code: i32,
}

impl View for ClError {
    type V = ClErrorView;

    open spec fn view(&self) -> ClErrorView {
        ClErrorView { call: self.call@, code: self.code }
    }
}

/// A number in base ten, behind a minus sign where it is negative.
pub open spec fn signed(n: int) -> Seq<char> {
    if n < 0 {
        seq!['-'] + decimal(-n)
    } else {
        decimal(n)
    }
}

/// What is said of a call that failed.
pub open spec fn cl_message(e: ClErrorView) -> Seq<char> {
    e.call + " failed: "@ + signed(e.code as int)
}

fn write_signed(n: i32) -> (r: String)
    ensures
        r@ == signed(n as int),
{
    let wide: i64 = n as i64;
    if wide < 0 {
        let mut s: String = String::new();
        s.push('-');
        assert(s@ =~= seq!['-']);
        s.append(write_number((-wide) as u64, 10).as_str());
        s
    } else {
        write_number(wide as u64, 10)
    }
}

impl ClError {
    pub fn message(&self) -> (r: String)
        ensures
            r@ == cl_message(self@),
    {
        let mut m: String = self.call.to_owned();
        m.append(" failed: ");
        m.append(write_signed(self.code).as_str());
        m
    }
}

/// Whether a call did what it was asked.
pub fn check(call: &'static str, code: i32) -> (r: Result<(), ClError>)
    ensures
        match r {
            Ok(_) => code == CL_SUCCESS,
            Err(e) => code != CL_SUCCESS && e@ == (ClErrorView { call: call@, code }),
        },
{
    if code == CL_SUCCESS {
        Ok(())
    } else {
        Err(ClError { call, code })
    }
}

/// The value that a device reports, where it reports one.
pub fn reported(code: i32, value: u32) -> (r: Option<u32>)
    ensures
        r == (if code == CL_SUCCESS {
            Some(value)
        } else {
            None
        }),
{
    if code == CL_SUCCESS {
        Some(value)
    } else {
        None
    }
}

/// Whether the platform has every entry point that was asked for.
pub fn resolve(found: &Vec<bool>) -> (r: Result<(), ClError>)
    ensures
        r is Ok <==> !found@.contains(false),
        r matches Err(e) ==> e@ == (ClErrorView {
            call: "clGetExtensionFunctionAddressForPlatform"@,
            code: 0,
        }),
{
    let mut i: usize = 0;
    while i < found.len()
        invariant
            i <= found@.len(),
            forall|j: int| 0 <= j < i ==> found@[j],
        decreases found@.len() - i,
    {
        if !found[i] {
            assert(found@[i as int] == false);
            return Err(ClError { call: "clGetExtensionFunctionAddressForPlatform", code: 0 });
        }
        i += 1;
    }
    Ok(())
}

/// How many bytes are asked for, for an allocation of `size`: never none.
pub open spec fn usm_bytes(size: usize) -> usize {
    if size == 0 {
        1
    } else {
        size
    }
}

pub fn usm_size(size: usize) -> (r: usize)
    ensures
        r == usm_bytes(size),
        r >= 1,
        size >= 1 ==> r == size,
        size == 0 ==> r == 1,
{
    if size == 0 {
        1
    } else {
        size
    }
}

/// Whether a kernel can have this name: a name ends at its first NUL.
pub open spec fn is_kernel_name(name: Seq<char>) -> bool {
    !name.contains('\0')
}

pub fn kernel_name(name: &str) -> (r: bool)
    ensures
        r == is_kernel_name(name@),
        r <==> forall|i: int| 0 <= i < name@.len() ==> name@[i] != '\0',
{
    let chars: Vec<char> = chars_of(name);
    let mut i: usize = 0;
    while i < chars.len()
        invariant
            i <= chars@.len(),
            chars@ == name@,
            forall|j: int| 0 <= j < i ==> chars@[j] != '\0',
        decreases chars@.len() - i,
    {
        if chars[i] == '\0' {
            assert(name@[i as int] == '\0');
            return false;
        }
        i += 1;
    }
    true
}

// ---------------------------------------------------------------- device texts

/// What `String::from_utf8_lossy` makes of these bytes.
pub uninterp spec fn utf8_lossy(bytes: Seq<u8>) -> Seq<char>;

/// `String::from_utf8_lossy`: the text of the bytes, what is no UTF-8 in them
/// replaced. The text is a function of the bytes alone, and where they are
/// UTF-8 throughout it is the one that they encode.
#[verifier::external_body]
fn from_utf8_lossy(bytes: &[u8]) -> (r: String)
    ensures
        r@ == utf8_lossy(bytes@),
        valid_utf8(bytes@) ==> r@ == decode_utf8(bytes@),
{
    String::from_utf8_lossy(bytes).into_owned()
}

/// A text without the NULs at its end.
pub open spec fn without_nuls(s: Seq<char>) -> Seq<char>
    decreases s.len(),
{
    if s.len() > 0 && s.last() == '\0' {
        without_nuls(s.drop_last())
    } else {
        s
    }
}

/// Take the NULs off the end of a text.
pub fn trim_nuls(text: &str) -> (r: String)
    ensures
        r@ == without_nuls(text@),
{
    let chars: Vec<char> = chars_of(text);
    let mut to: usize = chars.len();
    assert(chars@.take(to as int) =~= chars@);
    while to > 0 && chars[to - 1] == '\0'
        invariant
            to <= chars@.len(),
            without_nuls(text@) == without_nuls(chars@.take(to as int)),
        decreases to,
    {
        assert(chars@.take(to as int).drop_last() =~= chars@.take(to as int - 1));
        to -= 1;
    }
    assert(chars@.take(to as int) =~= chars@.subrange(0, to as int));
    text_of(&chars, 0, to)
}

/// The text that a device reports, from the bytes of its answer.
pub fn device_string(bytes: &[u8]) -> (r: String)
    ensures
        r@ == without_nuls(utf8_lossy(bytes@)),
        valid_utf8(bytes@) ==> r@ == without_nuls(decode_utf8(bytes@)),
{
    trim_nuls(from_utf8_lossy(bytes).as_str())
}

/// However many NULs stand behind a text, it is the same without them.
pub proof fn law_nuls_are_taken_off(text: Seq<char>, nuls: Seq<char>)
    requires
        forall|i: int| 0 <= i < nuls.len() ==> nuls[i] == '\0',
        text.len() > 0 ==> text.last() != '\0',
    ensures
        without_nuls(text + nuls) == text,
    decreases nuls.len(),
{
    if nuls.len() == 0 {
        assert(text + nuls =~= text);
    } else {
        assert((text + nuls).drop_last() =~= text + nuls.drop_last());
        law_nuls_are_taken_off(text, nuls.drop_last());
    }
}

// ---------------------------------------------------------------- the first GPU

/// The search for the first GPU: platforms are asked in order, and the first
/// that has one is taken.
pub struct GpuSearch {
    pub platforms: usize,
    pub next: usize,
}

/// Whether a platform's answer to `clGetDeviceIDs` has a GPU in it.
pub open spec fn has_gpu(answer: (i32, u32)) -> bool {
    answer.0 == CL_SUCCESS && answer.1 != 0
}

impl GpuSearch {
    pub open spec fn valid(self) -> bool {
        self.next <= self.platforms <= MAX_PLATFORMS
    }

    /// The search after the answers of the platforms in turn: it stays at the
    /// first that has a GPU.
    pub open spec fn after(self, answers: Seq<(i32, u32)>) -> GpuSearch
        decreases answers.len(),
    {
        if answers.len() == 0 || self.next >= self.platforms || has_gpu(answers[0]) {
            self
        } else {
            GpuSearch { platforms: self.platforms, next: (self.next + 1) as usize }.after(
                answers.drop_first(),
            )
        }
    }

    /// Begin with the answer to `clGetPlatformIDs`.
    pub fn start(code: i32, platforms: u32) -> (r: Result<Self, ClError>)
        ensures
            match r {
                Ok(s) => code == CL_SUCCESS && s.valid() && s.next == 0 && s.platforms == (
                if platforms <= MAX_PLATFORMS {
                    platforms
                } else {
                    MAX_PLATFORMS
                }),
                Err(e) => code != CL_SUCCESS && e@ == (ClErrorView {
                    call: "clGetPlatformIDs"@,
                    code,
                }),
            },
    {
        check("clGetPlatformIDs", code)?;
        let n: u32 = if platforms <= MAX_PLATFORMS {
            platforms
        } else {
            MAX_PLATFORMS
        };
        Ok(GpuSearch { platforms: n as usize, next: 0 })
    }

    /// The platform to ask next; none is left where the search has failed.
    pub fn ask(&self) -> (r: Result<usize, ClError>)
        ensures
            match r {
                Ok(i) => self.next < self.platforms && i == self.next,
                Err(e) => self.next >= self.platforms && e@ == (ClErrorView {
                    call: "clGetDeviceIDs"@,
                    code: CL_DEVICE_NOT_FOUND,
                }),
            },
    {
        if self.next < self.platforms {
            Ok(self.next)
        } else {
            Err(ClError { call: "clGetDeviceIDs", code: CL_DEVICE_NOT_FOUND })
        }
    }

    /// Take a platform's answer in: it is the one to use, or is passed over.
    pub fn answer(&mut self, code: i32, devices: u32) -> (r: bool)
        requires
            old(self).valid(),
            old(self).next < old(self).platforms,
        ensures
            final(self).valid(),
            r == has_gpu((code, devices)),
            r <==> code == CL_SUCCESS && devices > 0,
            final(self).platforms == old(self).platforms,
            final(self).next == if r {
                old(self).next as int
            } else {
                old(self).next + 1
            },
            *final(self) == old(self).after(seq![(code, devices)]),
    {
        let ghost one = seq![(code, devices)];
        assert(one.drop_first() =~= seq![]);
        reveal_with_fuel(GpuSearch::after, 2);
        if code == CL_SUCCESS && devices != 0 {
            true
        } else {
            self.next = self.next + 1;
            false
        }
    }
}

/// The answers of the platforms are taken in one after the other.
pub proof fn law_answers_are_taken_in_turn(s: GpuSearch, answers: Seq<(i32, u32)>)
    requires
        s.valid(),
        s.next < s.platforms,
        answers.len() > 0,
        !has_gpu(answers[0]),
    ensures
        s.after(answers) == s.after(seq![answers[0]]).after(answers.drop_first()),
{
    reveal_with_fuel(GpuSearch::after, 2);
}

/// Of the platforms that are looked at, the search stops at the first whose
/// answer has a GPU in it, and past the last where none has.
pub proof fn law_the_first_gpu_is_used(s: GpuSearch, answers: Seq<(i32, u32)>)
    requires
        s.valid(),
        answers.len() == s.platforms - s.next,
    ensures
        s.after(answers).platforms == s.platforms,
        s.next <= s.after(answers).next <= s.platforms,
        forall|i: int|
            0 <= i < s.after(answers).next - s.next ==> !has_gpu(#[trigger] answers[i]),
        s.after(answers).next < s.platforms ==> has_gpu(answers[s.after(answers).next - s.next]),
    decreases answers.len(),
{
    if answers.len() > 0 && !has_gpu(answers[0]) {
        let t = GpuSearch { platforms: s.platforms, next: (s.next + 1) as usize };
        let rest = answers.drop_first();
        law_the_first_gpu_is_used(t, rest);
        assert forall|i: int| 0 <= i < s.after(answers).next - s.next implies !has_gpu(
            #[trigger] answers[i],
        ) by {
            if i > 0 {
                assert(rest[i - 1] == answers[i]);
            }
        }
    }
}

/// The codes and numbers are those of `OpenCL` and of its Intel extension.
pub proof fn law_codes_are_those_of_opencl()
    ensures
        CL_SUCCESS == 0,
        CL_DEVICE_NOT_FOUND == -1,
        CL_DEVICE_ID_INTEL == 0x4251,
        MAX_PLATFORMS == 16,
{
}

/// An allocation of any size is asked for as it is; one of none is asked for
/// as one byte.
pub proof fn law_no_allocation_is_empty(size: usize)
    ensures
        size >= 1 ==> usm_bytes(size) == size,
        size == 0 ==> usm_bytes(size) == 1,
{
}

/// A name is a kernel's unless a NUL stands in it.
pub proof fn law_kernel_names_hold_no_nul(name: Seq<char>)
    ensures
        is_kernel_name(name) <==> forall|i: int| 0 <= i < name.len() ==> name[i] != '\0',
{
    if !is_kernel_name(name) {
        let i = choose|i: int| 0 <= i < name.len() && name[i] == '\0';
        assert(name[i] == '\0');
    }
}

/// Nothing of an error is lost in its view.
pub proof fn law_cl_errors_are_seen_whole(e: ClError)
    ensures
        e@.call == e.call@,
        e@.code == e.code,
{
}

/// A call that failed is named, and behind it stands its code: decimal digits
/// that read back, behind a minus sign where the code is negative.
pub proof fn law_failed_calls_are_named(e: ClErrorView)
    ensures
        ({
            let front = e.call + " failed: "@;
            let m = cl_message(e);
            let code = m.skip(front.len() as int);
            &&& front.is_prefix_of(m)
            &&& e.code >= 0 ==> code == decimal(e.code as int)
            &&& e.code < 0 ==> code.len() > 0 && code[0] == '-' && code.drop_first() == decimal(
                -e.code,
            )
            &&& number(
                if e.code < 0 {
                    code.drop_first()
                } else {
                    code
                },
                10,
                0x8000_0000,
            ) == Some(if e.code < 0 {
                -e.code
            } else {
                e.code as int
            })
        }),
{
    let front = e.call + " failed: "@;
    let m = cl_message(e);
    assert(m.skip(front.len() as int) =~= signed(e.code as int));
    if e.code >= 0 {
        law_decimals_read_back(e.code as int, 0x8000_0000);
    } else {
        law_decimals_read_back(-e.code, 0x8000_0000);
        assert(signed(e.code as int).drop_first() =~= decimal(-e.code));
    }
}

/// The search ends at the first platform that answers without an error and
/// with a device; the platforms before it did not, and where none does the
/// search ends behind the last.
pub proof fn law_platforms_are_passed_over_for_cause(s: GpuSearch, answers: Seq<(i32, u32)>)
    requires
        s.valid(),
        answers.len() == s.platforms - s.next,
    ensures
        s.after(answers).platforms == s.platforms,
        s.next <= s.after(answers).next <= s.platforms,
        forall|i: int|
            0 <= i < s.after(answers).next - s.next ==> (#[trigger] answers[i]).0 != CL_SUCCESS
                || answers[i].1 == 0,
        s.after(answers).next < s.platforms ==> answers[s.after(answers).next - s.next].0
            == CL_SUCCESS && answers[s.after(answers).next - s.next].1 > 0,
{
    law_the_first_gpu_is_used(s, answers);
    assert forall|i: int| 0 <= i < s.after(answers).next - s.next implies (#[trigger] answers[i]).0
        != CL_SUCCESS || answers[i].1 == 0 by {
        assert(!has_gpu(answers[i]));
    }
}

} // verus!
