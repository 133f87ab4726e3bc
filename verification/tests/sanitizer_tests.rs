use zfs::records::DownloadDigest;
use zfs::sanitizer::{
    cleanup_download, compute_acceleration_factor, compute_download_gaps,
    present_fragment_indices, sanitizer_step, CleanupAction, SanitizerAction,
    SanitizerRegistryEntry,
};
use zfs::{GAP_DOWNLOAD_SCHEDULE, MAX_ACCELERATION, STUCK_CYCLES_RESET};

fn entry(tide: usize, gap_num: usize, stuck: usize) -> SanitizerRegistryEntry {
    SanitizerRegistryEntry {
        digest: DownloadDigest { key: "k".to_string(), path: "/out".to_string(), pace: 0 },
        tide_level: tide,
        gap_num,
        stuck_cycles: stuck,
    }
}

#[test]
fn acceleration_grows_quadratically_and_caps() {
    // r = stuck / STUCK_CYCLES_RESET + 1, accel = min(max(1, r/2) * r, cap).
    assert_eq!(compute_acceleration_factor(0), 1);
    assert_eq!(compute_acceleration_factor(2), 1);
    assert_eq!(compute_acceleration_factor(3), 2);
    assert_eq!(compute_acceleration_factor(6), 3);
    assert_eq!(compute_acceleration_factor(9), 8);
    assert_eq!(compute_acceleration_factor(12), 10);
    assert_eq!(compute_acceleration_factor(15), 18);
    assert_eq!(compute_acceleration_factor(18), 21);
    assert_eq!(compute_acceleration_factor(21), 32);
    assert_eq!(compute_acceleration_factor(24), MAX_ACCELERATION);
    assert_eq!(compute_acceleration_factor(3000), MAX_ACCELERATION);
}

#[test]
fn gaps_are_the_missing_indices_in_order() {
    let present: Vec<u64> = vec![0, 1, 2, 4, 5, 6, 8, 9];
    let gaps = compute_download_gaps(10, &present);
    assert_eq!(gaps, vec![3, 7]);
}

#[test]
fn gaps_are_empty_exactly_when_all_fragments_are_present() {
    let all: Vec<u64> = (0..10).collect();
    assert!(compute_download_gaps(10, &all).is_empty());
    let none: Vec<u64> = Vec::new();
    let gaps = compute_download_gaps(4, &none);
    assert_eq!(gaps, vec![0, 1, 2, 3]);
}

#[test]
fn listing_names_map_to_indices() {
    let names: Vec<String> = ["0", "17", "zfs-digest", "x9", "007", ""]
        .iter()
        .map(|s| s.to_string())
        .collect();
    let mut idx = present_fragment_indices(&names);
    idx.sort_unstable();
    assert_eq!(idx, vec![0, 7, 17]);
}

#[test]
fn a_complete_download_is_cleaned_up() {
    let mut e = entry(5, 3, 1);
    let gaps: Vec<u32> = Vec::new();
    let action = sanitizer_step(&mut e, &gaps);
    assert!(matches!(action, SanitizerAction::Cleanup));
    assert_eq!(e.tide_level, 5);
    assert_eq!(e.gap_num, 3);
    assert_eq!(e.stuck_cycles, 1);
}

#[test]
fn progress_moves_the_tide_to_the_next_gap() {
    let mut e = entry(2, 5, 1);
    let gaps: Vec<u32> = vec![0, 1, 4];
    let action = sanitizer_step(&mut e, &gaps);
    assert!(matches!(action, SanitizerAction::Wait));
    assert_eq!(e.tide_level, 4);
    assert_eq!(e.gap_num, 3);
    assert_eq!(e.stuck_cycles, 1);
}

#[test]
fn progress_below_the_tide_resets_it_to_zero() {
    let mut e = entry(5, 4, 0);
    let gaps: Vec<u32> = vec![0, 1];
    let action = sanitizer_step(&mut e, &gaps);
    assert!(matches!(action, SanitizerAction::Wait));
    assert_eq!(e.tide_level, 0);
    assert_eq!(e.gap_num, 2);
}

#[test]
fn a_stalled_cycle_counts_once_and_waits() {
    let mut e = entry(0, 3, 0);
    let gaps: Vec<u32> = vec![1, 2, 3];
    let action = sanitizer_step(&mut e, &gaps);
    assert!(matches!(action, SanitizerAction::Wait));
    assert_eq!(e.stuck_cycles, 1);
    assert_eq!(e.gap_num, 3);
    assert_eq!(e.tide_level, 0);
}

#[test]
fn the_stalled_transport_escalates_on_the_reset_cycle() {
    // 200 missing fragments; the transport delivers nothing for
    // STUCK_CYCLES_RESET cycles.  On the last of them the sanitizer
    // re-requests min(200, GAP_DOWNLOAD_SCHEDULE * accel) fragments.
    let gaps: Vec<u32> = (0..200).collect();
    let mut e = entry(0, 200, 0);
    for _ in 0..STUCK_CYCLES_RESET - 1 {
        let action = sanitizer_step(&mut e, &gaps);
        assert!(matches!(action, SanitizerAction::Wait));
    }
    let action = sanitizer_step(&mut e, &gaps);
    assert_eq!(e.stuck_cycles, STUCK_CYCLES_RESET);
    let accel = compute_acceleration_factor(STUCK_CYCLES_RESET);
    let expected = 200usize.min(GAP_DOWNLOAD_SCHEDULE * accel);
    match action {
        SanitizerAction::Refetch(batch) => {
            assert_eq!(batch.len(), expected);
            let want: Vec<u32> = (0..expected as u32).collect();
            assert_eq!(batch, want);
            assert_eq!(e.tide_level, (expected - 1) as usize);
        }
        other => panic!("expected an escalation, got {:?}", other),
    }
}

#[test]
fn lost_fragments_are_recovered_within_cycles() {
    // 100 fragments uploaded; the first driver pass lost 7, 23 and 91.
    let mut present: Vec<u64> = (0..100).filter(|i| ![7, 23, 91].contains(i)).collect();
    let gaps = compute_download_gaps(100, &present);
    assert_eq!(gaps, vec![7, 23, 91]);
    // Cycle one: the sweep registers the intent with the gap set.
    let mut e = entry(gaps[0] as usize, gaps.len(), 0);
    // Cycle two: the transport delivered the re-requested fragments.
    present.extend([7, 23, 91]);
    let gaps = compute_download_gaps(100, &present);
    assert!(gaps.is_empty());
    let action = sanitizer_step(&mut e, &gaps);
    assert!(matches!(action, SanitizerAction::Cleanup));
}

#[test]
fn cleanup_requires_size_and_checksum_to_match() {
    // Verified download: remove everything.
    assert_eq!(cleanup_download(true, true, 100, 7, 100, 7), CleanupAction::RemoveAll);
    // Still being reassembled: wait.
    assert_eq!(cleanup_download(true, true, 60, 7, 100, 7), CleanupAction::Defer);
    // Size right, checksum wrong: report corruption, touch nothing.
    assert_eq!(cleanup_download(true, true, 100, 8, 100, 7), CleanupAction::ReportCorrupt);
    // Target absent though the digest is local: reassemble.
    assert_eq!(cleanup_download(false, true, 0, 0, 100, 7), CleanupAction::Defragment);
    // No digest: nothing to decide.
    assert_eq!(cleanup_download(true, false, 100, 7, 0, 0), CleanupAction::Skip);
}
