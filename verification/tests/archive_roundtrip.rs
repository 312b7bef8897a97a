use gany::archive::prepare_package_archive;
use gany::archive::unpack_package_archive;
use gany::package::Package;
use gany::version::Version;

fn meta() -> Package {
    Package {
        arch: "x86_64".to_string(),
        name: "tool".to_string(),
        description: "a tool".to_string(),
        version: Version { major: 1, minor: 2, patch: 3 },
        dependencies: None,
        conflicts: None,
        files: vec!["bin/tool".to_string()],
        keccak: None,
    }
}

#[test]
fn archive_round_trip() {
    let tar_bytes: Vec<u8> = b"some archived file tree bytes, repeated bytes bytes bytes".to_vec();
    let (archive, stamped, size) = prepare_package_archive(&tar_bytes, &meta());
    assert_eq!(size as usize, tar_bytes.len());
    assert_ne!(archive, tar_bytes);
    let (unpacked, announced) = unpack_package_archive(&archive).expect("archive must unpack");
    assert_eq!(unpacked, tar_bytes);
    assert_eq!(announced, size);
    assert!(stamped.keccak.is_some());
}

#[test]
fn keccak_covers_the_compressed_bytes() {
    // SHA3-256 of the empty input is a fixed, well-known digest; an
    // empty tree still compresses to a non-empty archive, so the
    // recorded hash must differ from the digest of the raw input.
    let empty: Vec<u8> = vec![];
    let (archive, stamped, size) = prepare_package_archive(&empty, &meta());
    assert_eq!(size, 0);
    assert!(archive.len() >= 4);
    let hash = stamped.keccak.expect("hash must be recorded");
    assert_eq!(hash.len(), 64);
    let sha3_of_empty = "a7ffc6f8bf1ed76651c14756a061d662f580ff4de43b49fa82d80a4b80f8434a";
    assert_ne!(hash, sha3_of_empty);
    assert!(hash.chars().all(|c| c.is_ascii_hexdigit()));
}

#[test]
fn hash_is_deterministic_and_input_sensitive() {
    let bytes: Vec<u8> = vec![1, 2, 3, 4, 5];
    let (_, first, _) = prepare_package_archive(&bytes, &meta());
    let (_, second, _) = prepare_package_archive(&bytes, &meta());
    assert_eq!(first.keccak, second.keccak);
    let other: Vec<u8> = vec![5, 4, 3, 2, 1];
    let (_, third, _) = prepare_package_archive(&other, &meta());
    assert_ne!(first.keccak, third.keccak);
}

#[test]
fn garbage_does_not_unpack() {
    let too_short: Vec<u8> = vec![1, 2];
    assert!(unpack_package_archive(&too_short).is_none());
    // A length prefix followed by bytes that are no LZ4 stream.
    let lying: Vec<u8> = vec![16, 0, 0, 0, 255, 255, 255];
    assert!(unpack_package_archive(&lying).is_none());
}

#[test]
fn overlong_length_fields_are_rejected() {
    // LZ4 length fields accumulate 255 per 0xFF byte into a 32-bit
    // counter; an archive carrying a run of 0xFF bytes longer than any
    // valid length field needs is rejected up front instead of being
    // handed to the decompressor.
    let mut lying: Vec<u8> = vec![16, 0, 0, 0];
    lying.extend(std::iter::repeat(255u8).take(16_000_000));
    assert!(unpack_package_archive(&lying).is_none());
}
