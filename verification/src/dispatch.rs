//! The dispatcher's decision: what one filesystem create event means.
//!
//! The daemon watches the two intent inboxes and the upload fragment
//! staging root.  For every created file the event loop outside asks
//! `dispatch_create_event` which task to start: a download for an
//! intent in the download inbox, a fragmentation for an intent in the
//! upload inbox, or the publication of a staged fragment under its
//! transport key.  Directory events and paths in none of the three
//! zones are ignored.

use vstd::prelude::*;
use crate::schema::{
    spec_download_digest_dir, spec_upload_digest_dir, spec_upload_frag_dir_to_key, spec_zfs_key,
    zfs_key, zfsd_download_digest_dir, zfsd_upload_digest_dir, zfsd_upload_frag_dir_to_key,
};
use crate::strnum::{chars_to_string, str_chars};

verus! {

/// The position of the last path separator in `s`, or `-1`.
pub open spec fn last_sep(s: Seq<char>) -> int
    decreases s.len(),
{
    if s.len() == 0 {
        -1
    } else if s.last() == '/' {
        s.len() - 1
    } else {
        last_sep(s.drop_last())
    }
}

/// Everything before the last path separator; empty when there is
/// none.  This is how the dispatcher names the directory an event's
/// file was created in.
pub open spec fn parent_of(s: Seq<char>) -> Seq<char> {
    if last_sep(s) >= 0 {
        s.take(last_sep(s))
    } else {
        Seq::empty()
    }
}

/// What the dispatcher starts for one create event.
#[derive(Debug)]
pub enum DispatchAction {
    /// The file is a download intent: run the download driver on it.
    StartDownload,
    /// The file is an upload intent: fragment the named source file.
    StartUpload,
    /// The file is a staged upload fragment or digest: publish its
    /// bytes under this transport key.
    PublishFragment(String),
    /// A directory event, or a path in none of the watched zones.
    Ignore,
}

/// Finds the last path separator of `v`.
fn find_last_sep(v: &Vec<char>) -> (r: Option<usize>)
    ensures
        (r matches Some(i) ==> i < v@.len() && last_sep(v@) == i),
        r is None <==> last_sep(v@) < 0,
{
    let mut i: usize = v.len();
    proof {
        assert(v@.take(v@.len() as int) =~= v@);
    }
    while i > 0
        invariant
            0 <= i <= v@.len(),
            last_sep(v@) == last_sep(v@.take(i as int)),
        decreases i,
    {
        if v[i - 1] == '/' {
            proof {
                assert(v@.take(i as int).last() == v@[i - 1]);
            }
            return Some(i - 1);
        }
        proof {
            assert(v@.take(i as int).drop_last() =~= v@.take(i - 1));
        }
        i = i - 1;
    }
    proof {
        assert(v@.take(0) =~= Seq::<char>::empty());
    }
    None
}

/// Classifies one create event.  A file whose parent directory is the
/// download intent inbox starts a download; one whose parent is the
/// upload intent inbox starts a fragmentation; a file below the upload
/// fragment staging root is published under `zfs/<key suffix>`, where
/// the suffix is the path after the staging root.  Everything else,
/// and every directory event, is ignored.
pub fn dispatch_create_event(home: &str, path: &str, is_file: bool) -> (a: DispatchAction)
    ensures
        a is StartDownload <==> (is_file && parent_of(path@) == spec_download_digest_dir(home@)),
        a is StartUpload <==> (is_file && parent_of(path@) != spec_download_digest_dir(home@)
            && parent_of(path@) == spec_upload_digest_dir(home@)),
        a is PublishFragment <==> (is_file && parent_of(path@) != spec_download_digest_dir(home@)
            && parent_of(path@) != spec_upload_digest_dir(home@) && spec_upload_frag_dir_to_key(
            home@,
            path@,
        ) is Some),
        (a matches DispatchAction::PublishFragment(w) ==> w@ == spec_zfs_key(
            spec_upload_frag_dir_to_key(home@, path@)->0,
        )),
{
    if !is_file {
        return DispatchAction::Ignore;
    }
    let pchars = str_chars(path);
    let parent = match find_last_sep(&pchars) {
        Some(i) => chars_to_string(&pchars, 0, i),
        None => String::new(),
    };
    proof {
        assert(parent@ == parent_of(path@));
    }
    if parent == zfsd_download_digest_dir(home) {
        DispatchAction::StartDownload
    } else if parent == zfsd_upload_digest_dir(home) {
        DispatchAction::StartUpload
    } else {
        match zfsd_upload_frag_dir_to_key(home, path) {
            Some(suffix) => DispatchAction::PublishFragment(zfs_key(suffix.as_str())),
            None => DispatchAction::Ignore,
        }
    }
}

} // verus!
