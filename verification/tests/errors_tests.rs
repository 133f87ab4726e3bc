use zfs::errors::{zfs_err2str, ZfsError};
use zfs::json::decode_upload_intent;

#[test]
fn every_error_kind_has_a_message() {
    let kinds = [
        ZfsError::IntentParse,
        ZfsError::SourceIO,
        ZfsError::StagingIO,
        ZfsError::TransportPublish,
        ZfsError::TransportQuery,
        ZfsError::DigestUnavailable,
        ZfsError::ReassemblyIO,
        ZfsError::Corrupted,
        ZfsError::WatcherFatal,
    ];
    for k in kinds {
        assert!(!k.message().is_empty());
    }
}

#[test]
fn malformed_intents_surface_as_intent_parse() {
    let e = decode_upload_intent("not json at all").unwrap_err();
    assert_eq!(e, ZfsError::IntentParse);
    assert_eq!(e.message(), "malformed intent record");
}

#[test]
fn outside_errors_render_as_text() {
    let s = zfs_err2str(ZfsError::Corrupted);
    assert!(!s.is_empty());
}
