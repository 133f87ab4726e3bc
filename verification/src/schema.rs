//! The path and key schema: the deterministic mapping between logical
//! keys, the local fragment and intent directories under the working
//! root, and the transport key expressions.  Pure string functions,
//! no I/O; callers resolve the working root once and pass it in.
//!
//! On the transport, key `k` lives under `zfs/<k>/`: the digest at
//! `zfs/<k>/zfs-digest` and fragment `n` at `zfs/<k>/<n>`.  Locally,
//! intents arrive under `<home>/digest/{upload,download}` and fragments
//! are staged under `<home>/frags/{upload,download}/<k>`.

use vstd::prelude::*;
use vstd::string::StringExecFns;
use crate::strnum::{chars_to_string, dec_digits, str_chars, u64_to_dec};

verus! {

/// The path separator.
pub open spec fn sep() -> Seq<char> {
    seq!['/']
}

/// The fixed prefix of every transport key.
pub open spec fn spec_zfs_base() -> Seq<char> {
    seq!['z', 'f', 's']
}

/// The name of the digest file and of the digest key segment.
pub open spec fn spec_zfs_digest() -> Seq<char> {
    seq!['z', 'f', 's', '-', 'd', 'i', 'g', 'e', 's', 't']
}

/// The intent inbox subtree.
pub open spec fn spec_digest_subdir() -> Seq<char> {
    seq!['d', 'i', 'g', 'e', 's', 't']
}

/// The fragment staging subtree.
pub open spec fn spec_frags_subdir() -> Seq<char> {
    seq!['f', 'r', 'a', 'g', 's']
}

/// The upload side of either subtree.
pub open spec fn spec_upload_subdir() -> Seq<char> {
    seq!['u', 'p', 'l', 'o', 'a', 'd']
}

/// The download side of either subtree.
pub open spec fn spec_download_subdir() -> Seq<char> {
    seq!['d', 'o', 'w', 'n', 'l', 'o', 'a', 'd']
}

/// The transport key under which `key`'s segments live.
pub open spec fn spec_zfs_key(key: Seq<char>) -> Seq<char> {
    spec_zfs_base() + sep() + key
}

/// The transport key of `key`'s fragmentation digest.
pub open spec fn spec_zfs_frags_digest_for_key(key: Seq<char>) -> Seq<char> {
    spec_zfs_base() + sep() + key + sep() + spec_zfs_digest()
}

/// The transport key of `key`'s `n`-th fragment.
pub open spec fn spec_zfs_nth_frag_key(key: Seq<char>, n: nat) -> Seq<char> {
    spec_zfs_base() + sep() + key + sep() + dec_digits(n)
}

/// The upload intent inbox under `home`.
pub open spec fn spec_upload_digest_dir(home: Seq<char>) -> Seq<char> {
    home + sep() + spec_digest_subdir() + sep() + spec_upload_subdir()
}

/// The download intent inbox under `home`.
pub open spec fn spec_download_digest_dir(home: Seq<char>) -> Seq<char> {
    home + sep() + spec_digest_subdir() + sep() + spec_download_subdir()
}

/// The upload fragment staging root under `home`.
pub open spec fn spec_upload_frags_dir(home: Seq<char>) -> Seq<char> {
    home + sep() + spec_frags_subdir() + sep() + spec_upload_subdir()
}

/// The download fragment staging root under `home`.
pub open spec fn spec_download_frags_dir(home: Seq<char>) -> Seq<char> {
    home + sep() + spec_frags_subdir() + sep() + spec_download_subdir()
}

/// The key a path under the upload fragment staging root stands for:
/// the part after the root and one separator, if the path lies there.
pub open spec fn spec_upload_frag_dir_to_key(home: Seq<char>, path: Seq<char>) -> Option<
    Seq<char>,
> {
    let dir = spec_upload_frags_dir(home);
    if path.len() >= dir.len() + 1 && path.take(dir.len() as int) == dir && path[dir.len() as int]
        == '/' {
        Some(path.skip(dir.len() as int + 1))
    } else {
        None
    }
}

/// The name of the fragmentation digest file.
pub fn zfs_digest_filename() -> (r: &'static str)
    ensures
        r@ == spec_zfs_digest(),
{
    proof {
        reveal_strlit("zfs-digest");
        assert("zfs-digest"@ =~= spec_zfs_digest());
    }
    "zfs-digest"
}

/// The transport key for `key`.
pub fn zfs_key(key: &str) -> (r: String)
    ensures
        r@ == spec_zfs_key(key@),
{
    proof {
        reveal_strlit("zfs/");
        assert("zfs/"@ =~= spec_zfs_base() + sep());
    }
    let mut s = String::from_str("zfs/");
    s.append(key);
    proof {
        assert(s@ =~= spec_zfs_key(key@));
    }
    s
}

/// The transport key of `key`'s fragmentation digest.
pub fn zfs_frags_digest_for_key(key: &str) -> (r: String)
    ensures
        r@ == spec_zfs_frags_digest_for_key(key@),
{
    proof {
        reveal_strlit("zfs/");
        reveal_strlit("/zfs-digest");
        assert("zfs/"@ =~= spec_zfs_base() + sep());
        assert("/zfs-digest"@ =~= sep() + spec_zfs_digest());
    }
    let mut s = String::from_str("zfs/");
    s.append(key);
    s.append("/zfs-digest");
    proof {
        assert(s@ =~= spec_zfs_frags_digest_for_key(key@));
    }
    s
}

/// The transport key of `key`'s `n`-th fragment.
pub fn zfs_nth_frag_key(key: &str, n: u32) -> (r: String)
    ensures
        r@ == spec_zfs_nth_frag_key(key@, n as nat),
{
    proof {
        reveal_strlit("zfs/");
        reveal_strlit("/");
        assert("zfs/"@ =~= spec_zfs_base() + sep());
        assert("/"@ =~= sep());
    }
    let mut s = String::from_str("zfs/");
    s.append(key);
    s.append("/");
    let num = u64_to_dec(n as u64);
    s.append(num.as_str());
    proof {
        assert(s@ =~= spec_zfs_nth_frag_key(key@, n as nat));
    }
    s
}

/// The upload intent inbox under `home`.
pub fn zfsd_upload_digest_dir(home: &str) -> (r: String)
    ensures
        r@ == spec_upload_digest_dir(home@),
{
    proof {
        reveal_strlit("/digest/upload");
        assert("/digest/upload"@ =~= sep() + spec_digest_subdir() + sep() + spec_upload_subdir());
    }
    let mut s = String::from_str(home);
    s.append("/digest/upload");
    proof {
        assert(s@ =~= spec_upload_digest_dir(home@));
    }
    s
}

/// The download intent inbox under `home`.
pub fn zfsd_download_digest_dir(home: &str) -> (r: String)
    ensures
        r@ == spec_download_digest_dir(home@),
{
    proof {
        reveal_strlit("/digest/download");
        assert("/digest/download"@ =~= sep() + spec_digest_subdir() + sep()
            + spec_download_subdir());
    }
    let mut s = String::from_str(home);
    s.append("/digest/download");
    proof {
        assert(s@ =~= spec_download_digest_dir(home@));
    }
    s
}

/// The upload fragment staging root under `home`.
pub fn zfsd_upload_frags_dir(home: &str) -> (r: String)
    ensures
        r@ == spec_upload_frags_dir(home@),
{
    proof {
        reveal_strlit("/frags/upload");
        assert("/frags/upload"@ =~= sep() + spec_frags_subdir() + sep() + spec_upload_subdir());
    }
    let mut s = String::from_str(home);
    s.append("/frags/upload");
    proof {
        assert(s@ =~= spec_upload_frags_dir(home@));
    }
    s
}

/// The download fragment staging root under `home`.
pub fn zfsd_download_frags_dir(home: &str) -> (r: String)
    ensures
        r@ == spec_download_frags_dir(home@),
{
    proof {
        reveal_strlit("/frags/download");
        assert("/frags/download"@ =~= sep() + spec_frags_subdir() + sep()
            + spec_download_subdir());
    }
    let mut s = String::from_str(home);
    s.append("/frags/download");
    proof {
        assert(s@ =~= spec_download_frags_dir(home@));
    }
    s
}

/// The download fragment directory for `k` under `home`.
pub fn zfsd_download_frags_dir_for_key(home: &str, k: &str) -> (r: String)
    ensures
        r@ == spec_download_frags_dir(home@) + sep() + k@,
{
    proof {
        reveal_strlit("/");
        assert("/"@ =~= sep());
    }
    let mut s = zfsd_download_frags_dir(home);
    s.append("/");
    s.append(k);
    proof {
        assert(s@ =~= spec_download_frags_dir(home@) + sep() + k@);
    }
    s
}

/// The upload fragment directory for `k` under `home`.
pub fn zfsd_upload_frags_dir_for_key(home: &str, k: &str) -> (r: String)
    ensures
        r@ == spec_upload_frags_dir(home@) + sep() + k@,
{
    proof {
        reveal_strlit("/");
        assert("/"@ =~= sep());
    }
    let mut s = zfsd_upload_frags_dir(home);
    s.append("/");
    s.append(k);
    proof {
        assert(s@ =~= spec_upload_frags_dir(home@) + sep() + k@);
    }
    s
}

/// Recovers the logical key from a path inside the upload fragment
/// staging root: strips the root and the separator after it.  Returns
/// `None` for any path that does not lie under the root.
pub fn zfsd_upload_frag_dir_to_key(home: &str, path: &str) -> (r: Option<String>)
    ensures
        (r matches Some(k) ==> spec_upload_frag_dir_to_key(home@, path@) == Some(k@)),
        r is Some <==> spec_upload_frag_dir_to_key(home@, path@) is Some,
{
    let dir = zfsd_upload_frags_dir(home);
    let dchars = str_chars(dir.as_str());
    let pchars = str_chars(path);
    let ghost dir_seq = spec_upload_frags_dir(home@);
    proof {
        assert(dchars@ == dir_seq);
    }
    if pchars.len() <= dchars.len() {
        return None;
    }
    let mut i: usize = 0;
    while i < dchars.len()
        invariant
            0 <= i <= dchars@.len(),
            dchars@.len() < pchars@.len(),
            pchars@ == path@,
            dchars@ == dir_seq,
            dir_seq == spec_upload_frags_dir(home@),
            pchars@.take(i as int) =~= dchars@.take(i as int),
        decreases dchars@.len() - i,
    {
        if pchars[i] != dchars[i] {
            proof {
                assert(path@.take(dchars@.len() as int) != dchars@) by {
                    if path@.take(dchars@.len() as int) == dchars@ {
                        assert(path@.take(dchars@.len() as int)[i as int] == dchars@[i as int]);
                        assert(path@.take(dchars@.len() as int)[i as int] == path@[i as int]);
                    }
                }
            }
            return None;
        }
        proof {
            assert(pchars@.take(i + 1) =~= dchars@.take(i + 1));
        }
        i = i + 1;
    }
    proof {
        assert(pchars@.take(dchars@.len() as int) =~= dchars@);
    }
    if pchars[dchars.len()] != '/' {
        return None;
    }
    let key = chars_to_string(&pchars, dchars.len() + 1, pchars.len());
    proof {
        assert(key@ =~= path@.skip(dchars@.len() as int + 1));
    }
    Some(key)
}

} // verus!
