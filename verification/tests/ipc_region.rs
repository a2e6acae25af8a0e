use prescient::ipc::region::{
    expected_backing_len, region_name, Backing, Platform, RegionHandle, SharedRegion,
};
use prescient::ipc::{Fault, FaultKind};

#[test]
fn generated_posix_region_name_fits_darwin_limit() {
    let (_owner, handle) = SharedRegion::create(1, Platform::Posix).unwrap();
    let name = handle.name();
    assert_eq!(name.len(), 27);
    assert!(name.len() <= 31);
    assert!(name.starts_with("/p-"));
    assert!(name[3..].bytes().all(|byte| matches!(byte, b'0'..=b'9' | b'a'..=b'f')));
}

#[test]
fn reopen_rejects_a_descriptor_beyond_the_backing_extent() {
    for page_len in [1, 4096] {
        let (_owner, handle) = SharedRegion::create(4_097, Platform::Posix).unwrap();
        let backing = expected_backing_len(handle.len(), page_len).unwrap();
        let beyond_backing = backing as usize + 1;
        let forged = RegionHandle::from_parts(handle.name().to_owned(), beyond_backing).unwrap();
        let object = Backing::Object { actual_len: backing as i64, page_len };
        let error = SharedRegion::open(&forged, object).err().unwrap();
        assert_eq!(error.kind(), FaultKind::InvalidData);
        assert!(SharedRegion::open(&handle, object).is_ok());
    }
}

#[test]
fn malformed_handles_are_rejected() {
    assert!(RegionHandle::from_parts(String::new(), 1).is_err());
    assert!(RegionHandle::from_parts("valid".into(), 0).is_err());
}

#[test]
fn generated_names_differ() {
    let (_, one) = SharedRegion::create(8, Platform::Posix).unwrap();
    let (_, two) = SharedRegion::create(8, Platform::Posix).unwrap();
    assert!(!one.locates(&two));
    assert!(one.locates(&one.duplicate()));
    assert_ne!(one.name(), "/p-000000000000000000000000");
}

#[test]
fn names_spell_their_token() {
    let token = [0x00, 0x1f, 0xa0, 0xff, 0x10, 0x02, 0x30, 0x04, 0x50, 0x06, 0x70, 0x9b];
    let (region, handle) = SharedRegion::named(64, Platform::Posix, &token).unwrap();
    assert_eq!(handle.name(), "/p-001fa0ff100230045006709b");
    assert_eq!(handle.len(), 64);
    assert!(!region.is_locked());
}

#[test]
fn lengths_are_bounded() {
    assert_eq!(SharedRegion::create(0, Platform::Posix).err(), Some(Fault::RegionLength));
    assert_eq!(SharedRegion::create(usize::MAX, Platform::Posix).err(), Some(Fault::RegionLength));
    let long = "x".repeat(241);
    assert_eq!(RegionHandle::from_parts(long, 1).err(), Some(Fault::RegionName));
    assert!(RegionHandle::from_parts("x".repeat(240), 1).is_ok());
    assert_eq!(expected_backing_len(4_097, 4_096), Ok(8_192));
    assert_eq!(expected_backing_len(8_192, 4_096), Ok(8_192));
    assert_eq!(expected_backing_len(usize::MAX, 4_096), Err(Fault::RegionSize));
}

#[test]
fn locking_is_remembered() {
    let (mut region, _) = SharedRegion::create(16, Platform::Posix).unwrap();
    assert!(!region.lock(false));
    assert!(region.lock(true));
    assert!(region.lock(false));
    assert!(region.is_locked());
}

#[test]
fn windows_names_carry_the_process() {
    let platform = Platform::Windows { process_id: 4_294_967_295 };
    assert_eq!(region_name(platform, "0a"), "Local\\prescient-region-4294967295-0a");
    let token = [0x00, 0x1f, 0xa0, 0xff, 0x10, 0x02, 0x30, 0x04, 0x50, 0x06, 0x70, 0x9b];
    let platform = Platform::Windows { process_id: 7 };
    let (_, handle) = SharedRegion::named(64, platform, &token).unwrap();
    assert_eq!(handle.name(), "Local\\prescient-region-7-001fa0ff100230045006709b");
    assert_eq!(region_name(Platform::Windows { process_id: 0 }, ""), "Local\\prescient-region-0-");
    assert_eq!(region_name(Platform::Windows { process_id: 1_090 }, "x"), "Local\\prescient-region-1090-x");
    let (_, fresh) = SharedRegion::create(1, platform).unwrap();
    assert!(fresh.name().starts_with("Local\\prescient-region-7-"));
    assert_eq!(fresh.name().len(), 49);
    let region = SharedRegion::open(&handle, Backing::Unsized).unwrap();
    assert!(!region.is_locked());
}

#[test]
fn objects_have_the_announced_length() {
    let handle = RegionHandle::from_parts("x".into(), 10).unwrap();
    let object = |actual_len, page_len| Backing::Object { actual_len, page_len };
    assert!(SharedRegion::open(&handle, object(10, 1)).is_ok());
    assert_eq!(SharedRegion::open(&handle, object(11, 1)), Err(Fault::RegionBacking));
    assert_eq!(SharedRegion::open(&handle, object(-1, 1)), Err(Fault::RegionBacking));
    assert_eq!(SharedRegion::open(&handle, object(16, usize::MAX)), Err(Fault::RegionBacking));
    assert_eq!(
        SharedRegion::open(&RegionHandle::from_parts("x".into(), isize::MAX as usize).unwrap(), object(1, isize::MAX as usize - 1)),
        Err(Fault::RegionBacking)
    );
}
