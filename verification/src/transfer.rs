//! The download driver's decision core.
//!
//! Given one download intent, the driver outside this crate checks
//! whether the target file already exists, queries the transport for
//! the fragmentation digest, lists the fragments already staged, and
//! asks `download` what to do.  The answer either ends the download
//! (already present, or no digest reachable) or names exactly the
//! fragments still to fetch, in index order.

use vstd::prelude::*;
use crate::records::FragmentationDigest;
use crate::sanitizer::compute_download_gaps;

verus! {

/// The driver's decision for one download intent.
#[derive(Debug)]
pub enum DownloadAction {
    /// The target path already exists: the download is a no-op.
    AlreadyPresent,
    /// No fragmentation digest is reachable: fail with
    /// `DigestUnavailable`; the sanitizer retries every cycle.
    DigestMissing,
    /// Fetch exactly these fragment indices, in ascending order.
    Fetch(Vec<u32>),
}

/// Decides one download.  A download whose target exists is a no-op,
/// whatever else holds.  Without a digest nothing can be fetched.
/// Otherwise the driver fetches, in index order, exactly the fragments
/// of the digest that are not already staged locally: a fragment file
/// that exists is never requested again.
pub fn download(
    target_exists: bool,
    digest: Option<&FragmentationDigest>,
    present: &Vec<u64>,
) -> (a: DownloadAction)
    ensures
        target_exists ==> a is AlreadyPresent,
        !target_exists && digest is None ==> a is DigestMissing,
        !target_exists ==> (digest matches Some(d) ==> {
            &&& a is Fetch
            &&& (a matches DownloadAction::Fetch(v) ==> {
                &&& (forall|i: int, j: int| 0 <= i < j < v@.len() ==> v@[i] < v@[j])
                &&& (forall|i: int|
                    0 <= i < v@.len() ==> #[trigger] v@[i] < d.fragments && !present@.contains(
                        v@[i] as u64,
                    ))
                &&& (forall|x: u32|
                    x < d.fragments && !present@.contains(x as u64) ==> #[trigger] v@.contains(x))
            })
        }),
{
    if target_exists {
        return DownloadAction::AlreadyPresent;
    }
    match digest {
        None => DownloadAction::DigestMissing,
        Some(d) => DownloadAction::Fetch(compute_download_gaps(d.fragments, present)),
    }
}

} // verus!
