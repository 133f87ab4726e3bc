use zfs::records::FragmentationDigest;
use zfs::strnum::{parse_frag_index, u64_to_dec};
use zfs::transfer::{download, DownloadAction};

fn digest(fragments: u32) -> FragmentationDigest {
    FragmentationDigest {
        name: "k".to_string(),
        size: fragments as u64 * 4,
        crc: 0,
        fragment_size: 4,
        fragments,
    }
}

#[test]
fn a_present_target_makes_the_download_a_no_op() {
    let present: Vec<u64> = Vec::new();
    let action = download(true, Some(&digest(4)), &present);
    assert!(matches!(action, DownloadAction::AlreadyPresent));
    // Even a missing digest changes nothing once the target exists.
    let action = download(true, None, &present);
    assert!(matches!(action, DownloadAction::AlreadyPresent));
}

#[test]
fn a_missing_digest_fails_the_download() {
    let present: Vec<u64> = Vec::new();
    let action = download(false, None, &present);
    assert!(matches!(action, DownloadAction::DigestMissing));
}

#[test]
fn present_fragments_are_never_requested_again() {
    let present: Vec<u64> = vec![0, 2];
    let action = download(false, Some(&digest(4)), &present);
    match action {
        DownloadAction::Fetch(v) => assert_eq!(v, vec![1, 3]),
        other => panic!("expected a fetch plan, got {:?}", other),
    }
}

#[test]
fn a_fresh_download_fetches_everything_in_order() {
    let present: Vec<u64> = Vec::new();
    let action = download(false, Some(&digest(5)), &present);
    match action {
        DownloadAction::Fetch(v) => assert_eq!(v, vec![0, 1, 2, 3, 4]),
        other => panic!("expected a fetch plan, got {:?}", other),
    }
}

#[test]
fn decimal_rendering_is_canonical() {
    assert_eq!(u64_to_dec(0), "0");
    assert_eq!(u64_to_dec(7), "7");
    assert_eq!(u64_to_dec(32768), "32768");
    assert_eq!(u64_to_dec(u64::MAX), "18446744073709551615");
}

#[test]
fn fragment_names_parse_as_indices() {
    assert_eq!(parse_frag_index("0"), Some(0));
    assert_eq!(parse_frag_index("42"), Some(42));
    assert_eq!(parse_frag_index("007"), Some(7));
    assert_eq!(parse_frag_index("18446744073709551615"), Some(u64::MAX));
    assert_eq!(parse_frag_index("18446744073709551616"), None);
    assert_eq!(parse_frag_index(""), None);
    assert_eq!(parse_frag_index("zfs-digest"), None);
    assert_eq!(parse_frag_index("1x"), None);
    assert_eq!(parse_frag_index("-1"), None);
}
