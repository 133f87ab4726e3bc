//! The error taxonomy of the transfer pipeline.
//!
//! Every error is recoverable by a later event or sanitizer cycle,
//! except `WatcherFatal`, which aborts the daemon at startup only.

use vstd::prelude::*;

verus! {

/// What went wrong while processing one intent, fragment or download.
#[derive(Clone, Copy, Debug, PartialEq, Eq, Structural)]
pub enum ZfsError {
    /// Malformed intent JSON; the intent is logged and deleted.
    IntentParse,
    /// The file to upload cannot be read.
    SourceIO,
    /// Local fragments or the digest cannot be written.
    StagingIO,
    /// Publication to the transport failed; the staged files remain.
    TransportPublish,
    /// A transport query returned no reply.
    TransportQuery,
    /// No fragmentation digest reachable for a download.
    DigestUnavailable,
    /// Defragmentation failed to read or write.
    ReassemblyIO,
    /// CRC-64 mismatch after reassembly.
    Corrupted,
    /// The filesystem watcher could not be installed.
    WatcherFatal,
}

impl ZfsError {
    /// A short description, usable in log lines.
    pub fn message(&self) -> (m: &'static str)
        ensures
            m@.len() > 0,
            self is IntentParse ==> m@ == "malformed intent record"@,
            self is SourceIO ==> m@ == "cannot read upload source"@,
            self is StagingIO ==> m@ == "cannot write staged fragments"@,
            self is TransportPublish ==> m@ == "transport publication failed"@,
            self is TransportQuery ==> m@ == "transport query returned no reply"@,
            self is DigestUnavailable ==> m@ == "fragmentation digest unavailable"@,
            self is ReassemblyIO ==> m@ == "defragmentation I/O failure"@,
            self is Corrupted ==> m@ == "CRC mismatch after reassembly"@,
            self is WatcherFatal ==> m@ == "filesystem watcher installation failed"@,
    {
        proof {
            reveal_strlit("malformed intent record");
            reveal_strlit("cannot read upload source");
            reveal_strlit("cannot write staged fragments");
            reveal_strlit("transport publication failed");
            reveal_strlit("transport query returned no reply");
            reveal_strlit("fragmentation digest unavailable");
            reveal_strlit("defragmentation I/O failure");
            reveal_strlit("CRC mismatch after reassembly");
            reveal_strlit("filesystem watcher installation failed");
        }
        match self {
            ZfsError::IntentParse => "malformed intent record",
            ZfsError::SourceIO => "cannot read upload source",
            ZfsError::StagingIO => "cannot write staged fragments",
            ZfsError::TransportPublish => "transport publication failed",
            ZfsError::TransportQuery => "transport query returned no reply",
            ZfsError::DigestUnavailable => "fragmentation digest unavailable",
            ZfsError::ReassemblyIO => "defragmentation I/O failure",
            ZfsError::Corrupted => "CRC mismatch after reassembly",
            ZfsError::WatcherFatal => "filesystem watcher installation failed",
        }
    }
}

/// Relies on std's `format!`: renders any debug-printable error as a
/// string, for log lines.  Nothing is promised of the text.
#[verifier::external_body]
pub fn zfs_err2str<E: core::fmt::Debug>(e: E) -> String {
    format!("{:?}", e)
}

} // verus!
