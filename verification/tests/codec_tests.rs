use zfs::errors::ZfsError;
use zfs::json::{
    decode_download_intent, decode_fragmentation_digest, decode_upload_intent,
    encode_download_intent, encode_fragmentation_digest, encode_upload_intent,
};
use zfs::records::{DownloadDigest, FragmentationDigest, UploadDigest};

#[test]
fn upload_intent_encodes_canonically() {
    let d = UploadDigest {
        path: "/data/file.bin".to_string(),
        key: "some/key".to_string(),
        fragment_size: 32768,
    };
    assert_eq!(
        encode_upload_intent(&d),
        "{\"path\":\"/data/file.bin\",\"key\":\"some/key\",\"fragment_size\":32768}"
    );
}

#[test]
fn download_intent_encodes_canonically() {
    let d = DownloadDigest { key: "k".to_string(), path: "/out".to_string(), pace: 0 };
    assert_eq!(encode_download_intent(&d), "{\"key\":\"k\",\"path\":\"/out\",\"pace\":0}");
}

#[test]
fn digest_encodes_canonically() {
    let d = FragmentationDigest {
        name: "some/key".to_string(),
        size: 10,
        crc: 1234567890123456789,
        fragment_size: 4,
        fragments: 3,
    };
    assert_eq!(
        encode_fragmentation_digest(&d),
        "{\"name\":\"some/key\",\"size\":10,\"crc\":1234567890123456789,\"fragment_size\":4,\"fragments\":3}"
    );
}

#[test]
fn string_escapes_encode_as_on_the_wire() {
    let d = UploadDigest {
        path: "a\"b\\c\nd\te\u{1}f".to_string(),
        key: "k".to_string(),
        fragment_size: 1,
    };
    assert_eq!(
        encode_upload_intent(&d),
        "{\"path\":\"a\\\"b\\\\c\\nd\\te\\u0001f\",\"key\":\"k\",\"fragment_size\":1}"
    );
}

#[test]
fn upload_intent_round_trips() {
    let d = UploadDigest {
        path: "/data/weird \"name\"\\with\nescapes\u{1f}".to_string(),
        key: "nested/key/path".to_string(),
        fragment_size: usize::MAX,
    };
    let r = decode_upload_intent(&encode_upload_intent(&d)).unwrap();
    assert_eq!(r.path, d.path);
    assert_eq!(r.key, d.key);
    assert_eq!(r.fragment_size, d.fragment_size);
}

#[test]
fn download_intent_round_trips() {
    let d = DownloadDigest { key: "k/x".to_string(), path: "/out/f".to_string(), pace: 250 };
    let r = decode_download_intent(&encode_download_intent(&d)).unwrap();
    assert_eq!(r.key, d.key);
    assert_eq!(r.path, d.path);
    assert_eq!(r.pace, d.pace);
}

#[test]
fn digest_round_trips() {
    let d = FragmentationDigest {
        name: "some/key".to_string(),
        size: u64::MAX,
        crc: u64::MAX,
        fragment_size: 32768,
        fragments: u32::MAX,
    };
    let r = decode_fragmentation_digest(&encode_fragmentation_digest(&d)).unwrap();
    assert_eq!(r.name, d.name);
    assert_eq!(r.size, d.size);
    assert_eq!(r.crc, d.crc);
    assert_eq!(r.fragment_size, d.fragment_size);
    assert_eq!(r.fragments, d.fragments);
}

#[test]
fn fields_decode_in_any_order_with_whitespace() {
    let s = " { \"fragment_size\" : 8 ,\n\t\"key\" : \"k\" , \"path\" : \"p\" } ";
    let d = decode_upload_intent(s).unwrap();
    assert_eq!(d.path, "p");
    assert_eq!(d.key, "k");
    assert_eq!(d.fragment_size, 8);
}

#[test]
fn unknown_fields_are_rejected() {
    let s = "{\"path\":\"p\",\"key\":\"k\",\"extra\":1}";
    assert_eq!(decode_upload_intent(s).unwrap_err(), ZfsError::IntentParse);
}

#[test]
fn duplicate_fields_are_rejected() {
    let s = "{\"path\":\"p\",\"path\":\"q\",\"key\":\"k\"}";
    assert_eq!(decode_upload_intent(s).unwrap_err(), ZfsError::IntentParse);
}

#[test]
fn missing_fields_are_rejected() {
    assert_eq!(decode_upload_intent("{\"path\":\"p\",\"key\":\"k\"}").unwrap_err(), ZfsError::IntentParse);
    assert_eq!(decode_upload_intent("{}").unwrap_err(), ZfsError::IntentParse);
    assert_eq!(decode_upload_intent("").unwrap_err(), ZfsError::IntentParse);
}

#[test]
fn malformed_numbers_are_rejected() {
    for s in [
        "{\"path\":\"p\",\"key\":\"k\",\"fragment_size\":007}",
        "{\"path\":\"p\",\"key\":\"k\",\"fragment_size\":1.5}",
        "{\"path\":\"p\",\"key\":\"k\",\"fragment_size\":1e3}",
        "{\"path\":\"p\",\"key\":\"k\",\"fragment_size\":-1}",
        "{\"path\":\"p\",\"key\":\"k\",\"fragment_size\":99999999999999999999999}",
    ] {
        assert_eq!(decode_upload_intent(s).unwrap_err(), ZfsError::IntentParse);
    }
}

#[test]
fn trailing_garbage_is_rejected() {
    let s = "{\"path\":\"p\",\"key\":\"k\",\"fragment_size\":1}x";
    assert_eq!(decode_upload_intent(s).unwrap_err(), ZfsError::IntentParse);
}

#[test]
fn the_wire_format_matches_other_json_readers() {
    // What this crate encodes, a general JSON parser reads back with
    // the same fields and values.
    let d = FragmentationDigest {
        name: "a \"quoted\"\nname".to_string(),
        size: 8192,
        crc: 17,
        fragment_size: 4096,
        fragments: 2,
    };
    let text = encode_fragmentation_digest(&d);
    let v: serde_json::Value = serde_json::from_str(&text).unwrap();
    assert_eq!(v["name"].as_str().unwrap(), d.name);
    assert_eq!(v["size"].as_u64().unwrap(), d.size);
    assert_eq!(v["crc"].as_u64().unwrap(), d.crc);
    assert_eq!(v["fragment_size"].as_u64().unwrap(), d.fragment_size as u64);
    assert_eq!(v["fragments"].as_u64().unwrap(), d.fragments as u64);
    // And what a general JSON writer emits, this crate reads back,
    // whatever order the writer chose.
    let alt = serde_json::to_string(&v).unwrap();
    let r = decode_fragmentation_digest(&alt).unwrap();
    assert_eq!(r.name, d.name);
    assert_eq!(r.size, d.size);
    assert_eq!(r.crc, d.crc);
    assert_eq!(r.fragment_size, d.fragment_size);
    assert_eq!(r.fragments, d.fragments);
}
