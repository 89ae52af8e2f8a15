//! What `OpenCL` answers.

use ovreplay::cl::{
    check, device_string, kernel_name, reported, resolve, trim_nuls, usm_size, GpuSearch,
    CL_DEVICE_NOT_FOUND, CL_SUCCESS,
};
use ovreplay::ClError;

#[test]
fn a_call_succeeds_with_code_zero_alone() {
    assert!(check("clFinish", CL_SUCCESS).is_ok());
    let e = check("clFinish", -36).unwrap_err();
    assert_eq!((e.call, e.code), ("clFinish", -36));
    assert_eq!(e.message(), "clFinish failed: -36");
    assert_eq!(ClError { call: "c", code: i32::MIN }.message(), "c failed: -2147483648");
    assert_eq!(ClError { call: "c", code: 0 }.message(), "c failed: 0");
}

#[test]
fn a_value_is_reported_or_not() {
    assert_eq!(reported(CL_SUCCESS, 0x7d51), Some(0x7d51));
    assert_eq!(reported(-30, 0x7d51), None);
}

#[test]
fn every_entry_point_must_be_there() {
    assert!(resolve(&vec![true; 5]).is_ok());
    let e = resolve(&vec![true, true, false, true, true]).unwrap_err();
    assert_eq!((e.call, e.code), ("clGetExtensionFunctionAddressForPlatform", 0));
}

#[test]
fn no_allocation_is_empty() {
    assert_eq!(usm_size(0), 1);
    assert_eq!(usm_size(1), 1);
    assert_eq!(usm_size(4096), 4096);
}

#[test]
fn kernel_names_hold_no_nul() {
    assert!(kernel_name("gen_conv"));
    assert!(!kernel_name("gen\0conv"));
}

#[test]
fn device_texts_lose_their_nuls_and_keep_the_rest() {
    assert_eq!(device_string(b"Intel(R) Arc(TM) Graphics\0"), "Intel(R) Arc(TM) Graphics");
    assert_eq!(device_string(b"a\0b\0\0"), "a\0b");
    assert_eq!(device_string(b"a\xffb\0"), "a\u{fffd}b");
    assert_eq!(device_string("caf\u{e9}".as_bytes()), "caf\u{e9}");
    assert_eq!(device_string(b""), "");
    assert_eq!(trim_nuls("x\0\0"), "x");
}

fn search(platforms: u32, answers: &[(i32, u32)]) -> Result<usize, ClError> {
    let mut s = GpuSearch::start(CL_SUCCESS, platforms)?;
    for (code, devices) in answers {
        let i = s.ask()?;
        if s.answer(*code, *devices) {
            return Ok(i);
        }
    }
    s.ask()
}

#[test]
fn the_first_platform_with_a_gpu_is_used() {
    assert_eq!(search(3, &[(-1, 0), (0, 0), (0, 2)]).unwrap(), 2);
    assert_eq!(search(3, &[(0, 1), (0, 1), (0, 1)]).unwrap(), 0);
    assert_eq!(search(2, &[(-1, 5), (0, 1)]).unwrap(), 1);
}

#[test]
fn a_search_without_a_gpu_fails() {
    let e = search(2, &[(-1, 0), (-1, 0)]).unwrap_err();
    assert_eq!((e.call, e.code), ("clGetDeviceIDs", CL_DEVICE_NOT_FOUND));
    let e = search(0, &[]).unwrap_err();
    assert_eq!((e.call, e.code), ("clGetDeviceIDs", -1));
    let Err(e) = GpuSearch::start(-1001, 0) else { panic!("no platforms") };
    assert_eq!((e.call, e.code), ("clGetPlatformIDs", -1001));
}

#[test]
fn a_search_looks_at_sixteen_platforms() {
    let Ok(s) = GpuSearch::start(CL_SUCCESS, 40) else { panic!("platforms") };
    assert_eq!((s.platforms, s.next), (16, 0));
}
