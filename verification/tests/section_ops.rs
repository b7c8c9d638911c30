//! The section operations on concrete file images.

use shed::{Shed, ShedError};

const MARKER: [u8; 6] = [0x40, 0x53, 0x48, 0x45, 0x44, 0x40];

fn handle() -> Shed {
    Shed::new_from_path("host.bin")
}

/// A stand-in for a real host executable: program bytes followed by one
/// occurrence of the marker, as a binary built from this library carries in
/// its code.
fn marked_host() -> Vec<u8> {
    let mut h = vec![0xAA, 0xBB];
    h.extend_from_slice(&MARKER);
    h
}

#[test]
fn locate_empty_file() {
    let shed = handle();
    assert_eq!(shed.has_shed(&[]), (false, 0));
    assert!(!shed.shed_exists(&[]));
}

#[test]
fn locate_no_marker_bytes() {
    let shed = handle();
    let host = vec![0xAAu8; 100];
    assert_eq!(shed.has_shed(&host), (false, 0));
    assert!(!shed.shed_exists(&host));
}

#[test]
fn locate_single_marker() {
    let shed = handle();
    let host = marked_host();
    assert_eq!(shed.has_shed(&host), (false, 0));
    assert!(!shed.shed_exists(&host));
}

#[test]
fn locate_two_markers() {
    let shed = handle();
    let mut host = marked_host();
    host.extend_from_slice(&MARKER);
    host.extend_from_slice(&[1, 2, 3]);
    // the second occurrence starts at offset 8; the payload at 14
    assert_eq!(shed.has_shed(&host), (true, 8));
    assert!(shed.shed_exists(&host));
}

#[test]
fn locate_partial_marker_at_end() {
    let shed = handle();
    let mut host = marked_host();
    host.extend_from_slice(&MARKER);
    // a truncated third occurrence runs past the end: no match
    host.extend_from_slice(&[0x40, 0x53, 0x48]);
    assert_eq!(shed.has_shed(&host), (true, 8));
    let mut bare = vec![0xAA, 0xBB, 0x40, 0x53, 0x48, 0x45, 0x44];
    assert_eq!(shed.has_shed(&bare), (false, 0));
    bare.push(0x40);
    // now the single occurrence is complete, still no section
    assert_eq!(shed.has_shed(&bare), (false, 0));
}

#[test]
fn scenario_stand_in_program() {
    // a two-byte stand-in program without any marker occurrence
    let shed = handle();
    let host = vec![0xAA, 0xBB];
    let image = shed.initialize_shed(&host).unwrap();
    assert_eq!(image, vec![0xAA, 0xBB, 0x40, 0x53, 0x48, 0x45, 0x44, 0x40]);
    assert_eq!(image.len(), 8);
    // the appended marker is the only occurrence, so the two-occurrence
    // policy does not yet report a section: the known caveat of the policy
    assert!(!shed.shed_exists(&image));
    assert_eq!(
        shed.write_to_shed(&image, &[0x01, 0x02, 0x03]),
        Err(ShedError::NotInitialized)
    );
}

#[test]
fn scenario_marked_program() {
    // the same scenario on a host that carries the marker constant in its
    // code, as a real executable of this library does
    let shed = handle();
    let host = marked_host();
    let image = shed.initialize_shed(&host).unwrap();
    let mut expected = marked_host();
    expected.extend_from_slice(&MARKER);
    assert_eq!(image, expected);

    let written = shed.write_to_shed(&image, &[0x01, 0x02, 0x03]).unwrap();
    let mut expected_written = expected.clone();
    expected_written.extend_from_slice(&[0x01, 0x02, 0x03]);
    assert_eq!(written, expected_written);

    assert_eq!(shed.read_from_shed(&written).unwrap(), vec![0x01, 0x02, 0x03]);
}

#[test]
fn initialize_then_locate_then_fail() {
    let shed = handle();
    let host = marked_host();
    assert!(!shed.shed_exists(&host));
    let image = shed.initialize_shed(&host).unwrap();
    assert!(shed.shed_exists(&image));
    assert_eq!(
        shed.initialize_shed(&image),
        Err(ShedError::AlreadyInitialized)
    );
}

#[test]
fn initialize_on_sectioned_file_fails() {
    let shed = handle();
    let mut host = marked_host();
    host.extend_from_slice(&MARKER);
    host.extend_from_slice(&[9, 9, 9]);
    assert_eq!(
        shed.initialize_shed(&host),
        Err(ShedError::AlreadyInitialized)
    );
}

#[test]
fn read_without_section_fails() {
    let shed = handle();
    assert_eq!(
        shed.read_from_shed(&marked_host()),
        Err(ShedError::NotInitialized)
    );
    assert_eq!(
        shed.write_to_shed(&marked_host(), &[1]),
        Err(ShedError::NotInitialized)
    );
}

#[test]
fn write_replaces_whole_payload() {
    let shed = handle();
    let image = shed.initialize_shed(&marked_host()).unwrap();
    let first = shed.write_to_shed(&image, &[1, 2, 3, 4, 5]).unwrap();
    let second = shed.write_to_shed(&first, &[7, 8]).unwrap();
    assert_eq!(shed.read_from_shed(&second).unwrap(), vec![7, 8]);
    assert_eq!(second.len(), image.len() + 2);
}

#[test]
fn payload_lengths_zero_one_and_megabytes() {
    let shed = handle();
    let image = shed.initialize_shed(&marked_host()).unwrap();
    // zero-length payload: a fresh section reads back empty
    assert_eq!(shed.read_from_shed(&image).unwrap(), Vec::<u8>::new());
    let one = shed.write_to_shed(&image, &[0xFF]).unwrap();
    assert_eq!(shed.read_from_shed(&one).unwrap(), vec![0xFF]);
    let big: Vec<u8> = (0..3 * 1024 * 1024).map(|i| (i % 251) as u8).collect();
    let written = shed.write_to_shed(&image, &big).unwrap();
    assert_eq!(shed.read_from_shed(&written).unwrap(), big);
}

#[test]
fn payload_containing_markers_survives() {
    let shed = handle();
    let image = shed.initialize_shed(&marked_host()).unwrap();
    let mut payload = Vec::new();
    payload.extend_from_slice(&MARKER);
    payload.extend_from_slice(&[0x00]);
    payload.extend_from_slice(&MARKER);
    let written = shed.write_to_shed(&image, &payload).unwrap();
    assert_eq!(shed.read_from_shed(&written).unwrap(), payload);
}

#[test]
fn read_twice_returns_identical_bytes() {
    let shed = handle();
    let image = shed.initialize_shed(&marked_host()).unwrap();
    let written = shed.write_to_shed(&image, &[4, 5, 6]).unwrap();
    let first = shed.read_from_shed(&written).unwrap();
    let second = shed.read_from_shed(&written).unwrap();
    assert_eq!(first, second);
}

#[test]
fn interrupted_swap_leaves_original_untouched() {
    // the scratch image is fully computed, but the swap never happens: the
    // original bytes must remain byte-identical
    let shed = handle();
    let image = shed.initialize_shed(&marked_host()).unwrap();
    let before = image.clone();
    let _scratch = shed.write_to_shed(&image, &[1, 2, 3]).unwrap();
    assert_eq!(image, before);
}

#[test]
fn path_is_kept() {
    let shed = Shed::new_from_path("/some/dir/host.bin");
    assert_eq!(shed.path(), "/some/dir/host.bin");
}
