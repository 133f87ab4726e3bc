use zfs::dispatch::{dispatch_create_event, DispatchAction};
use zfs::schema::{
    zfs_digest_filename, zfs_frags_digest_for_key, zfs_key, zfs_nth_frag_key,
    zfsd_download_digest_dir, zfsd_download_frags_dir, zfsd_download_frags_dir_for_key,
    zfsd_upload_digest_dir, zfsd_upload_frag_dir_to_key, zfsd_upload_frags_dir,
    zfsd_upload_frags_dir_for_key,
};

const HOME: &str = "/home/user/.zfsd";

#[test]
fn wire_keys_follow_the_schema() {
    assert_eq!(zfs_key("some/dir/file.bin"), "zfs/some/dir/file.bin");
    assert_eq!(
        zfs_frags_digest_for_key("some/dir/file.bin"),
        "zfs/some/dir/file.bin/zfs-digest"
    );
    assert_eq!(zfs_nth_frag_key("some/dir/file.bin", 0), "zfs/some/dir/file.bin/0");
    assert_eq!(zfs_nth_frag_key("k", 42), "zfs/k/42");
    assert_eq!(zfs_nth_frag_key("k", u32::MAX), "zfs/k/4294967295");
    assert_eq!(zfs_digest_filename(), "zfs-digest");
}

#[test]
fn local_directories_follow_the_schema() {
    assert_eq!(zfsd_upload_digest_dir(HOME), "/home/user/.zfsd/digest/upload");
    assert_eq!(zfsd_download_digest_dir(HOME), "/home/user/.zfsd/digest/download");
    assert_eq!(zfsd_upload_frags_dir(HOME), "/home/user/.zfsd/frags/upload");
    assert_eq!(zfsd_download_frags_dir(HOME), "/home/user/.zfsd/frags/download");
    assert_eq!(
        zfsd_upload_frags_dir_for_key(HOME, "a/b"),
        "/home/user/.zfsd/frags/upload/a/b"
    );
    assert_eq!(
        zfsd_download_frags_dir_for_key(HOME, "a/b"),
        "/home/user/.zfsd/frags/download/a/b"
    );
}

#[test]
fn frag_dir_path_maps_back_to_its_key() {
    let path = format!("{}/{}", zfsd_upload_frags_dir_for_key(HOME, "some/key"), "3");
    assert_eq!(zfsd_upload_frag_dir_to_key(HOME, &path), Some("some/key/3".to_string()));
    // The digest file below a key maps to the digest segment.
    let dpath = format!("{}/zfs-digest", zfsd_upload_frags_dir_for_key(HOME, "k"));
    assert_eq!(zfsd_upload_frag_dir_to_key(HOME, &dpath), Some("k/zfs-digest".to_string()));
}

#[test]
fn paths_outside_the_staging_root_have_no_key() {
    assert_eq!(zfsd_upload_frag_dir_to_key(HOME, "/elsewhere/frags/upload/k/0"), None);
    // The root itself, without a separator and suffix, is not a fragment path.
    let root = zfsd_upload_frags_dir(HOME);
    assert_eq!(zfsd_upload_frag_dir_to_key(HOME, &root), None);
    // A path that only shares a prefix with the root does not map.
    assert_eq!(zfsd_upload_frag_dir_to_key(HOME, "/home/user/.zfsd/frags/uploadX/k"), None);
}

#[test]
fn download_intents_dispatch_to_the_driver() {
    let path = format!("{}/{}", zfsd_download_digest_dir(HOME), "intent-1");
    let action = dispatch_create_event(HOME, &path, true);
    assert!(matches!(action, DispatchAction::StartDownload));
}

#[test]
fn upload_intents_dispatch_to_the_fragmenter() {
    let path = format!("{}/{}", zfsd_upload_digest_dir(HOME), "intent-2");
    let action = dispatch_create_event(HOME, &path, true);
    assert!(matches!(action, DispatchAction::StartUpload));
}

#[test]
fn staged_fragments_dispatch_to_publication() {
    let path = format!("{}/{}", zfsd_upload_frags_dir_for_key(HOME, "some/key"), "7");
    let action = dispatch_create_event(HOME, &path, true);
    match action {
        DispatchAction::PublishFragment(wire) => assert_eq!(wire, "zfs/some/key/7"),
        other => panic!("expected a publication, got {:?}", other),
    }
}

#[test]
fn directory_events_are_ignored() {
    let path = format!("{}/{}", zfsd_download_digest_dir(HOME), "subdir");
    let action = dispatch_create_event(HOME, &path, false);
    assert!(matches!(action, DispatchAction::Ignore));
}

#[test]
fn unrecognised_paths_are_ignored() {
    let action = dispatch_create_event(HOME, "/tmp/unrelated/file", true);
    assert!(matches!(action, DispatchAction::Ignore));
}
