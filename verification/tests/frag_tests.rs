use zfs::frag::{defragment, fragment};

fn crc64_of_bytes(data: &[u8]) -> u64 {
    let mut c = checksum::crc64::Crc64::new();
    c.checksum(data)
}

#[test]
fn a_tiny_file_splits_into_three_fragments() {
    let data: Vec<u8> = b"HELLOWORLD".to_vec();
    let (frags, digest) = fragment(&data, "tiny", 4);
    assert_eq!(frags.len(), 3);
    assert_eq!(frags[0], b"HELL".to_vec());
    assert_eq!(frags[1], b"OWOR".to_vec());
    assert_eq!(frags[2], b"LD".to_vec());
    assert_eq!(digest.name, "tiny");
    assert_eq!(digest.size, 10);
    assert_eq!(digest.fragment_size, 4);
    assert_eq!(digest.fragments, 3);
    assert_eq!(digest.crc, crc64_of_bytes(b"HELLOWORLD"));
    let (rebuilt, verified) = defragment(&frags, &digest);
    assert_eq!(rebuilt, data);
    assert!(verified);
}

#[test]
fn an_exact_boundary_splits_without_a_short_tail() {
    let data: Vec<u8> = (0..8192u32).map(|i| (i % 251) as u8).collect();
    let (frags, digest) = fragment(&data, "boundary", 4096);
    assert_eq!(frags.len(), 2);
    assert_eq!(frags[0].len(), 4096);
    assert_eq!(frags[1].len(), 4096);
    assert_eq!(digest.size, 8192);
    assert_eq!(digest.fragments, 2);
    let (rebuilt, verified) = defragment(&frags, &digest);
    assert_eq!(rebuilt, data);
    assert!(verified);
    assert_eq!(digest.crc, crc64_of_bytes(&data));
}

#[test]
fn an_empty_file_yields_one_empty_fragment() {
    let data: Vec<u8> = Vec::new();
    let (frags, digest) = fragment(&data, "empty", 32768);
    assert_eq!(frags.len(), 1);
    assert!(frags[0].is_empty());
    assert_eq!(digest.size, 0);
    assert_eq!(digest.fragments, 1);
    let (rebuilt, verified) = defragment(&frags, &digest);
    assert!(rebuilt.is_empty());
    assert!(verified);
}

#[test]
fn round_trips_hold_across_sizes() {
    for (len, fsize) in [(1usize, 1usize), (10, 3), (100, 7), (1000, 1000), (1000, 1001), (513, 256)]
    {
        let data: Vec<u8> = (0..len).map(|i| (i * 31 % 256) as u8).collect();
        let (frags, digest) = fragment(&data, "k", fsize);
        let expected = if len == 0 { 1 } else { (len + fsize - 1) / fsize };
        assert_eq!(frags.len(), expected);
        assert_eq!(digest.fragments as usize, expected);
        let (rebuilt, verified) = defragment(&frags, &digest);
        assert_eq!(rebuilt, data);
        assert!(verified);
    }
}

#[test]
fn a_tampered_fragment_fails_verification() {
    let data: Vec<u8> = (0..1000u32).map(|i| (i % 256) as u8).collect();
    let (mut frags, digest) = fragment(&data, "k", 128);
    // Flip one byte without changing any length.
    frags[3][17] ^= 0xff;
    let (rebuilt, verified) = defragment(&frags, &digest);
    assert_eq!(rebuilt.len(), data.len());
    assert!(!verified);
}
