//! The download sanitizer's decision core.
//!
//! A periodic sweep (driven from outside) watches every pending
//! download: it lists the fragment directory, computes the set of
//! still-missing fragment indices, and feeds both to the state machine
//! here.  The state machine tracks progress per intent, escalates
//! re-requests when a download stalls, and decides when the finished
//! download may be verified and cleaned up.  Everything here is pure:
//! the sweep performs the I/O and the transport calls the returned
//! actions ask for.

use vstd::prelude::*;
use crate::records::DownloadDigest;
use crate::strnum::{frag_index_of, parse_frag_index};
use crate::{GAP_DOWNLOAD_SCHEDULE, MAX_ACCELERATION, STUCK_CYCLES_RESET};

verus! {

/// What the sanitizer remembers about one download intent.
#[derive(Debug)]
pub struct SanitizerRegistryEntry {
    /// The parsed download intent.
    pub digest: DownloadDigest,
    /// The smallest still-missing fragment index last acted on.
    pub tide_level: usize,
    /// The number of missing fragments seen by the last cycle that made
    /// progress.
    pub gap_num: usize,
    /// Consecutive cycles without progress.
    pub stuck_cycles: usize,
}

/// What one sanitizer cycle asks the caller to do for one intent.
#[derive(Debug)]
pub enum SanitizerAction {
    /// No fragment is missing: verify the download and clean up.
    Cleanup,
    /// The download stalled: re-request exactly these fragment indices.
    Refetch(Vec<u32>),
    /// Fragments are still in flight: do nothing this cycle.
    Wait,
}

/// The acceleration factor applied to the repair batch after
/// `stuck_cycles` cycles without progress: with
/// `r = stuck_cycles / STUCK_CYCLES_RESET + 1` it is
/// `min(max(1, r / 2) * r, MAX_ACCELERATION)`, growing roughly
/// quadratically in the number of escalations, capped.
pub open spec fn accel_spec(stuck_cycles: nat) -> nat {
    let r = stuck_cycles / (STUCK_CYCLES_RESET as nat) + 1;
    let a = if r / 2 > 1 {
        r / 2
    } else {
        1
    };
    if a * r < MAX_ACCELERATION as nat {
        a * r
    } else {
        MAX_ACCELERATION as nat
    }
}

/// The acceleration factor is at least one and never exceeds the cap.
pub proof fn lemma_accel_bounded(stuck_cycles: nat)
    ensures
        1 <= accel_spec(stuck_cycles) <= MAX_ACCELERATION as nat,
{
    let r = stuck_cycles / (STUCK_CYCLES_RESET as nat) + 1;
    let a = if r / 2 > 1 {
        r / 2
    } else {
        1
    };
    assert(r >= 1);
    assert(a >= 1);
    assert(a * r >= 1) by (nonlinear_arith)
        requires
            a >= 1,
            r >= 1,
    ;
}

/// Computes the acceleration factor.
pub fn compute_acceleration_factor(stuck_cycles: usize) -> (f: usize)
    ensures
        f as nat == accel_spec(stuck_cycles as nat),
        1 <= f <= MAX_ACCELERATION,
{
    proof {
        lemma_accel_bounded(stuck_cycles as nat);
    }
    let r = stuck_cycles / STUCK_CYCLES_RESET + 1;
    if r > 8 {
        proof {
            let a = if r as nat / 2 > 1 {
                r as nat / 2
            } else {
                1
            };
            assert(a >= 4);
            assert(a * r as nat >= 4 * 9) by (nonlinear_arith)
                requires
                    a >= 4,
                    r as nat >= 9,
            ;
        }
        MAX_ACCELERATION
    } else {
        let a = if r / 2 > 1 { r / 2 } else { 1 };
        proof {
            assert(a * r <= 4 * 8) by (nonlinear_arith)
                requires
                    a <= 4,
                    r <= 8,
                    a >= 0,
                    r >= 0,
            ;
        }
        let f = a * r;
        if f < MAX_ACCELERATION {
            f
        } else {
            MAX_ACCELERATION
        }
    }
}

/// Whether `v` holds `x`.
pub fn contains_u64(v: &Vec<u64>, x: u64) -> (r: bool)
    ensures
        r == v@.contains(x),
{
    let mut i: usize = 0;
    while i < v.len()
        invariant
            0 <= i <= v@.len(),
            forall|k: int| 0 <= k < i ==> v@[k] != x,
        decreases v@.len() - i,
    {
        if v[i] == x {
            return true;
        }
        i = i + 1;
    }
    false
}

/// The still-missing fragment indices: `{0, ..., fragments - 1}` minus
/// the `present` indices, in ascending order.  The list is empty
/// exactly when every fragment is present.
pub fn compute_download_gaps(fragments: u32, present: &Vec<u64>) -> (gaps: Vec<u32>)
    ensures
        forall|i: int, j: int| 0 <= i < j < gaps@.len() ==> gaps@[i] < gaps@[j],
        forall|i: int|
            0 <= i < gaps@.len() ==> #[trigger] gaps@[i] < fragments && !present@.contains(
                gaps@[i] as u64,
            ),
        forall|x: u32| x < fragments && !present@.contains(x as u64) ==> #[trigger] gaps@.contains(
            x,
        ),
        gaps@.len() == 0 <==> (forall|x: u32|
            x < fragments ==> #[trigger] present@.contains(x as u64)),
{
    let mut gaps: Vec<u32> = Vec::new();
    let mut n: u32 = 0;
    while n < fragments
        invariant
            0 <= n <= fragments,
            forall|i: int, j: int| 0 <= i < j < gaps@.len() ==> gaps@[i] < gaps@[j],
            forall|i: int|
                0 <= i < gaps@.len() ==> #[trigger] gaps@[i] < n && !present@.contains(
                    gaps@[i] as u64,
                ),
            forall|x: u32| x < n && !present@.contains(x as u64) ==> #[trigger] gaps@.contains(x),
        decreases fragments - n,
    {
        if !contains_u64(present, n as u64) {
            let ghost old_gaps = gaps@;
            gaps.push(n);
            proof {
                assert(gaps@ =~= old_gaps.push(n));
                assert forall|i: int|
                    0 <= i < gaps@.len() implies gaps@[i] < n + 1 && !present@.contains(
                    #[trigger] (gaps@[i] as u64),
                ) by {
                    if i < old_gaps.len() {
                        assert(gaps@[i] == old_gaps[i]);
                        assert(old_gaps[i] < n && !present@.contains(old_gaps[i] as u64));
                    } else {
                        assert(gaps@[i] == n);
                    }
                }
                assert forall|i: int, j: int| 0 <= i < j < gaps@.len() implies gaps@[i]
                    < gaps@[j] by {
                    assert(gaps@[i] == old_gaps[i]);
                    assert(old_gaps[i] < n && !present@.contains(old_gaps[i] as u64));
                    if j < old_gaps.len() {
                        assert(gaps@[j] == old_gaps[j]);
                    } else {
                        assert(gaps@[j] == n);
                    }
                }
                assert forall|x: u32|
                    x < n + 1 && !present@.contains(x as u64) implies #[trigger] gaps@.contains(
                    x,
                ) by {
                    if x < n {
                        assert(old_gaps.contains(x));
                        let i = choose|i: int| 0 <= i < old_gaps.len() && old_gaps[i] == x;
                        assert(gaps@[i] == x);
                    } else {
                        assert(gaps@[old_gaps.len() as int] == n);
                    }
                }
            }
        }
        n = n + 1;
    }
    proof {
        if gaps@.len() == 0 {
            assert forall|x: u32| x < fragments implies #[trigger] present@.contains(
                x as u64,
            ) by {
                if !present@.contains(x as u64) {
                    assert(gaps@.contains(x));
                    let i = choose|i: int| 0 <= i < gaps@.len() && gaps@[i] == x;
                }
            }
        } else {
            assert(!present@.contains(gaps@[0] as u64) && gaps@[0] < fragments);
        }
    }
    gaps
}

/// The fragment indices a directory listing shows as present: every
/// name that is a pure decimal number, by its value.
pub fn present_fragment_indices(names: &Vec<String>) -> (r: Vec<u64>)
    ensures
        forall|x: u64|
            r@.contains(x) <==> exists|i: int|
                0 <= i < names@.len() && #[trigger] frag_index_of(names@[i]@) == Some(x),
{
    let mut r: Vec<u64> = Vec::new();
    let mut j: usize = 0;
    while j < names.len()
        invariant
            0 <= j <= names@.len(),
            forall|x: u64|
                r@.contains(x) <==> exists|i: int|
                    0 <= i < j && #[trigger] frag_index_of(names@[i]@) == Some(x),
        decreases names@.len() - j,
    {
        let ghost old_r = r@;
        match parse_frag_index(names[j].as_str()) {
            Some(v) => {
                proof {
                    assert(frag_index_of(names@[j as int]@) == Some(v));
                }
                r.push(v);
                proof {
                    assert(r@ =~= old_r.push(v));
                    assert forall|x: u64| r@.contains(x) implies exists|i: int|
                        0 <= i < j + 1 && #[trigger] frag_index_of(names@[i]@) == Some(x) by {
                        let k = choose|k: int| 0 <= k < r@.len() && r@[k] == x;
                        if k < old_r.len() {
                            assert(old_r.contains(x));
                        } else {
                            assert(x == v);
                            assert(frag_index_of(names@[j as int]@) == Some(x));
                        }
                    }
                    assert forall|x: u64| (exists|i: int|
                        0 <= i < j + 1 && #[trigger] frag_index_of(names@[i]@) == Some(
                            x,
                        )) implies r@.contains(x) by {
                        let i = choose|i: int|
                            0 <= i < j + 1 && frag_index_of(names@[i]@) == Some(x);
                        if i < j {
                            assert(old_r.contains(x));
                            let k = choose|k: int| 0 <= k < old_r.len() && old_r[k] == x;
                            assert(r@[k] == x);
                        } else {
                            assert(r@[old_r.len() as int] == v);
                        }
                    }
                }
            },
            None => {
                proof {
                    assert(frag_index_of(names@[j as int]@) is None);
                    assert forall|x: u64| (exists|i: int|
                        0 <= i < j + 1 && #[trigger] frag_index_of(names@[i]@) == Some(
                            x,
                        )) implies r@.contains(x) by {
                        let i = choose|i: int|
                            0 <= i < j + 1 && frag_index_of(names@[i]@) == Some(x);
                        assert(i < j);
                    }
                }
            },
        }
        j = j + 1;
    }
    r
}

/// The first gap at or above `tide`, if any; gaps are ascending, so it
/// is the smallest such gap.
pub open spec fn first_at_or_above(gaps: Seq<u32>, tide: nat) -> Option<u32>
    decreases gaps.len(),
{
    if gaps.len() == 0 {
        None
    } else if gaps[0] as nat >= tide {
        Some(gaps[0])
    } else {
        first_at_or_above(gaps.drop_first(), tide)
    }
}

/// The tide level after a cycle that made progress: the smallest
/// still-missing index at or above the old tide, or zero when the
/// remaining gaps all lie below it.
pub open spec fn progress_tide(gaps: Seq<u32>, tide: nat) -> nat {
    match first_at_or_above(gaps, tide) {
        Some(g) => g as nat,
        None => 0,
    }
}

/// Finds the first gap at or above `tide`.
fn find_first_at_or_above(gaps: &Vec<u32>, tide: usize) -> (r: Option<u32>)
    ensures
        r == first_at_or_above(gaps@, tide as nat),
{
    let mut i: usize = 0;
    proof {
        assert(gaps@.skip(0) =~= gaps@);
    }
    while i < gaps.len()
        invariant
            0 <= i <= gaps@.len(),
            first_at_or_above(gaps@, tide as nat) == first_at_or_above(
                gaps@.skip(i as int),
                tide as nat,
            ),
            forall|k: int| 0 <= k < i ==> (gaps@[k] as nat) < tide as nat,
        decreases gaps@.len() - i,
    {
        proof {
            assert(gaps@.skip(i as int)[0] == gaps@[i as int]);
        }
        if gaps[i] as usize >= tide {
            return Some(gaps[i]);
        }
        proof {
            assert(gaps@.skip(i as int).drop_first() =~= gaps@.skip(i + 1));
        }
        i = i + 1;
    }
    proof {
        assert(gaps@.skip(i as int) =~= Seq::<u32>::empty());
    }
    None
}

/// How many fragments an escalation re-requests: the whole gap list,
/// capped at `GAP_DOWNLOAD_SCHEDULE` times the acceleration factor.
pub open spec fn refetch_len(gap_count: nat, stuck_cycles: nat) -> nat {
    let cap = (GAP_DOWNLOAD_SCHEDULE as nat) * accel_spec(stuck_cycles);
    if gap_count < cap {
        gap_count
    } else {
        cap
    }
}

/// An escalation at stall counter `stuck` re-requests at most
/// `GAP_DOWNLOAD_SCHEDULE * min(MAX_ACCELERATION, accel(stuck))`
/// fragments, whatever the gap count; after `k` escalations without a
/// single cycle of progress the counter stands at
/// `k * STUCK_CYCLES_RESET`.
pub proof fn lemma_stall_escalation(k: nat, gap_count: nat)
    ensures
        refetch_len(gap_count, k * (STUCK_CYCLES_RESET as nat)) <= (GAP_DOWNLOAD_SCHEDULE as nat)
            * accel_spec(k * (STUCK_CYCLES_RESET as nat)),
        accel_spec(k * (STUCK_CYCLES_RESET as nat)) <= MAX_ACCELERATION as nat,
{
    lemma_accel_bounded(k * (STUCK_CYCLES_RESET as nat));
}

/// One sanitizer cycle for one tracked download, given the fresh list
/// of missing fragments (ascending).
///
/// * No gaps: the download is complete; clean up.  The entry is not
///   touched.
/// * Fewer gaps than last time: progress.  The tide moves to the
///   smallest missing index at or above the old tide (zero if none),
///   the gap count is recorded, and the stall counter is preserved.
/// * Otherwise: a stall.  The counter increments once per stalled
///   cycle, and on every `STUCK_CYCLES_RESET`-th consecutive stall the
///   sanitizer escalates: it re-requests the first
///   `min(|gaps|, GAP_DOWNLOAD_SCHEDULE * accel)` missing fragments
///   and leaves the tide at the last re-requested index.
pub fn sanitizer_step(entry: &mut SanitizerRegistryEntry, gaps: &Vec<u32>) -> (a: SanitizerAction)
    requires
        old(entry).stuck_cycles < usize::MAX,
        forall|i: int, j: int| 0 <= i < j < gaps@.len() ==> gaps@[i] < gaps@[j],
    ensures
        final(entry).digest == old(entry).digest,
        gaps@.len() == 0 ==> a is Cleanup && *final(entry) == *old(entry),
        0 < gaps@.len() < old(entry).gap_num ==> {
            &&& a is Wait
            &&& final(entry).gap_num == gaps@.len()
            &&& final(entry).tide_level as nat == progress_tide(
                gaps@,
                old(entry).tide_level as nat,
            )
            &&& final(entry).stuck_cycles == old(entry).stuck_cycles
        },
        gaps@.len() > 0 && gaps@.len() >= old(entry).gap_num ==> {
            &&& final(entry).stuck_cycles == old(entry).stuck_cycles + 1
            &&& final(entry).gap_num == old(entry).gap_num
            &&& ((old(entry).stuck_cycles + 1) % (STUCK_CYCLES_RESET as int) != 0 ==> a is Wait
                && final(entry).tide_level == old(entry).tide_level)
            &&& ((old(entry).stuck_cycles + 1) % (STUCK_CYCLES_RESET as int) == 0 ==> {
                let n = refetch_len(gaps@.len(), (old(entry).stuck_cycles + 1) as nat);
                &&& (a matches SanitizerAction::Refetch(v) ==> v@ =~= gaps@.subrange(0, n as int)
                    && final(entry).tide_level == gaps@[n - 1] as usize)
                &&& a is Refetch
            })
        },
{
    if gaps.len() == 0 {
        return SanitizerAction::Cleanup;
    }
    let new_gap_num = gaps.len();
    if new_gap_num < entry.gap_num {
        // Progress: advance the tide, remember the smaller gap count.
        let tide = match find_first_at_or_above(gaps, entry.tide_level) {
            Some(g) => g as usize,
            None => 0,
        };
        entry.tide_level = tide;
        entry.gap_num = new_gap_num;
        SanitizerAction::Wait
    } else {
        entry.stuck_cycles = entry.stuck_cycles + 1;
        if entry.stuck_cycles % STUCK_CYCLES_RESET == 0 {
            // Stalled long enough: escalate.
            let accel = compute_acceleration_factor(entry.stuck_cycles);
            let cap = GAP_DOWNLOAD_SCHEDULE * accel;
            let n = if new_gap_num < cap {
                new_gap_num
            } else {
                cap
            };
            let mut batch: Vec<u32> = Vec::new();
            let mut i: usize = 0;
            while i < n
                invariant
                    0 <= i <= n,
                    n <= gaps@.len(),
                    batch@ =~= gaps@.subrange(0, i as int),
                decreases n - i,
            {
                batch.push(gaps[i]);
                proof {
                    assert(batch@ =~= gaps@.subrange(0, i + 1));
                }
                i = i + 1;
            }
            entry.tide_level = gaps[n - 1] as usize;
            SanitizerAction::Refetch(batch)
        } else {
            SanitizerAction::Wait
        }
    }
}

/// What the cleanup gate decides for a download whose gap list came up
/// empty.
#[derive(Clone, Copy, Debug, PartialEq, Eq, Structural)]
pub enum CleanupAction {
    /// Verified: remove the fragment directory and the intent file.
    RemoveAll,
    /// The target file is absent though every fragment and the digest
    /// are here: reassemble it.
    Defragment,
    /// The target is still being reassembled: check again next cycle.
    Defer,
    /// The target has the right size but the wrong checksum: report
    /// corruption and leave everything in place for inspection.
    ReportCorrupt,
    /// No local digest: nothing can be decided this cycle.
    Skip,
}

/// The single authoritative cleanup gate.  Only a target that exists,
/// whose size equals the digest's size and whose CRC-64 equals the
/// digest's CRC may be cleaned up; an absent target with a digest is
/// reassembled instead.  `target_size` and `target_crc` are the
/// target file's observed size and checksum and are meaningful only
/// when `target_exists`; `digest_size` and `digest_crc` come from the
/// local fragmentation digest and are meaningful only when
/// `digest_exists`.
pub fn cleanup_download(
    target_exists: bool,
    digest_exists: bool,
    target_size: u64,
    target_crc: u64,
    digest_size: u64,
    digest_crc: u64,
) -> (a: CleanupAction)
    ensures
        a is RemoveAll <==> (target_exists && digest_exists && target_size == digest_size
            && target_crc == digest_crc),
        a is Defragment <==> (!target_exists && digest_exists),
        a is Defer <==> (target_exists && digest_exists && target_size != digest_size),
        a is ReportCorrupt <==> (target_exists && digest_exists && target_size == digest_size
            && target_crc != digest_crc),
        a is Skip <==> !digest_exists,
{
    if !digest_exists {
        CleanupAction::Skip
    } else if !target_exists {
        CleanupAction::Defragment
    } else if target_size != digest_size {
        CleanupAction::Defer
    } else if target_crc != digest_crc {
        CleanupAction::ReportCorrupt
    } else {
        CleanupAction::RemoveAll
    }
}

} // verus!
