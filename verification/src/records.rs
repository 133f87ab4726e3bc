//! The three persisted records: the two intent records a user drops
//! into the inbox directories, and the fragmentation digest the
//! fragmenter emits beside the fragments.

use vstd::prelude::*;

verus! {

/// How many fragments a file of `len` bytes yields at fragment size
/// `s`: the ceiling of `len / s`, and one fragment for an empty file.
pub open spec fn frag_count(len: nat, s: nat) -> nat
    recommends
        s >= 1,
{
    if len == 0 {
        1
    } else {
        ((len + s - 1) / (s as int)) as nat
    }
}

/// Emitted by the fragmenter: describes one fragmented file.
/// `name` is the logical key; `crc` is the CRC-64 of the whole file;
/// `fragments` is the number of blocks.
#[derive(Debug)]
pub struct FragmentationDigest {
    pub name: String,
    pub size: u64,
    pub crc: u64,
    pub fragment_size: usize,
    pub fragments: u32,
}

impl FragmentationDigest {
    /// A digest is well formed when its fragment count is the one its
    /// size and fragment size dictate.
    pub open spec fn wf(&self) -> bool {
        &&& self.fragment_size >= 1
        &&& self.fragments as nat == frag_count(self.size as nat, self.fragment_size as nat)
    }
}

/// A user request to publish the file at `path` under logical key
/// `key`, fragmenting into blocks of `fragment_size` bytes.
#[derive(Debug)]
pub struct UploadDigest {
    pub path: String,
    pub key: String,
    pub fragment_size: usize,
}

/// A user request to retrieve logical key `key` into local `path`;
/// `pace` is a per-fragment inter-arrival delay hint, possibly zero.
#[derive(Debug)]
pub struct DownloadDigest {
    pub key: String,
    pub path: String,
    pub pace: usize,
}

} // verus!
