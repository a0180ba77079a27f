use memapi::callsite::{CallSiteId, FunctionId, FunctionLocations};
use memapi::callstack::Callstack;
use memapi::fmt::{escape_source_line, usize_to_string};
use memapi::interner::CallstackInterner;
use memapi::sizes::{Allocation, HIGH_32BIT, MIB};
use memapi::tracker::AllocationTracker;

#[test]
fn untracked_allocation_removal() {
    let mut tracker = AllocationTracker::new("/tmp".to_string());
    assert_eq!(tracker.free_allocation(123), None);
}

#[test]
fn callstack_line_numbers() {
    let fid1 = FunctionId::new(1u32);
    let fid3 = FunctionId::new(3u32);
    let fid5 = FunctionId::new(5u32);

    // Parent line number does nothing if it's first call:
    let mut cs1 = Callstack::new();
    let id1 = CallSiteId::new(fid1, 2);
    let id2 = CallSiteId::new(fid3, 45);
    let id3 = CallSiteId::new(fid5, 6);
    cs1.start_call(123, id1);
    assert_eq!(cs1.calls, vec![id1]);

    // Parent line number does nothing if it's 0:
    cs1.start_call(0, id2);
    assert_eq!(cs1.calls, vec![id1, id2]);

    // Parent line number overrides previous level if it's non-0:
    let mut cs2 = Callstack::new();
    cs2.start_call(0, id1);
    cs2.start_call(10, id2);
    cs2.start_call(12, id3);
    assert_eq!(
        cs2.calls,
        vec![CallSiteId::new(fid1, 10), CallSiteId::new(fid3, 12), id3]
    );
}

#[test]
fn callstackinterner_notices_duplicates() {
    let fid1 = FunctionId::new(1u32);
    let fid3 = FunctionId::new(3u32);

    let mut cs1 = Callstack::new();
    cs1.start_call(0, CallSiteId::new(fid1, 2));
    let cs1b = cs1.clone();
    let mut cs2 = Callstack::new();
    cs2.start_call(0, CallSiteId::new(fid3, 4));
    let cs3 = Callstack::new();
    let cs3b = Callstack::new();

    let mut interner = CallstackInterner::new();

    let (id1, new) = interner.get_or_insert_id(&cs1);
    assert!(new);

    let (id1b, new) = interner.get_or_insert_id(&cs1b);
    assert!(!new);

    let (id2, new) = interner.get_or_insert_id(&cs2);
    assert!(new);

    let (id3, new) = interner.get_or_insert_id(&cs3);
    assert!(new);

    let (id3b, new) = interner.get_or_insert_id(&cs3b);
    assert!(!new);

    assert_eq!(id1, id1b);
    assert_ne!(id1, id2);
    assert_ne!(id1, id3);
    assert_ne!(id2, id3);
    assert_eq!(id3, id3b);
    assert_eq!(interner.len(), 3);
    assert_eq!(interner.get_callstack(id1), &cs1.calls);
    assert_eq!(interner.get_callstack(id2), &cs2.calls);
    assert_eq!(interner.get_callstack(id3), &cs3.calls);
}

#[test]
fn callstack_id_for_new_allocation() {
    let mut tracker = AllocationTracker::new(".".to_string());

    let mut cs1 = Callstack::new();
    let id0 = cs1.id_for_new_allocation(0, &mut tracker);
    let id0b = cs1.id_for_new_allocation(0, &mut tracker);
    assert_eq!(id0, id0b);

    let fid1 = FunctionId::new(1u32);

    cs1.start_call(0, CallSiteId::new(fid1, 2));
    let id1 = cs1.id_for_new_allocation(1, &mut tracker);
    let id2 = cs1.id_for_new_allocation(2, &mut tracker);
    let id1b = cs1.id_for_new_allocation(1, &mut tracker);
    assert_eq!(id1, id1b);
    assert_ne!(id2, id0);
    assert_ne!(id2, id1);

    cs1.start_call(3, CallSiteId::new(fid1, 2));
    let id3 = cs1.id_for_new_allocation(4, &mut tracker);
    assert_ne!(id3, id0);
    assert_ne!(id3, id1);
    assert_ne!(id3, id2);

    cs1.finish_call();
    let id2b = cs1.id_for_new_allocation(2, &mut tracker);
    assert_eq!(id2, id2b);
    let id1c = cs1.id_for_new_allocation(1, &mut tracker);
    assert_eq!(id1, id1c);

    // Check for cache invalidation in start_call:
    cs1.start_call(1, CallSiteId::new(fid1, 1));
    let id4 = cs1.id_for_new_allocation(1, &mut tracker);
    assert_ne!(id4, id0);
    assert_ne!(id4, id1);
    assert_ne!(id4, id2);
    assert_ne!(id4, id3);

    // Check for cache invalidation in finish_call:
    cs1.finish_call();
    let id1d = cs1.id_for_new_allocation(1, &mut tracker);
    assert_eq!(id1, id1d);
}

#[test]
fn peak_allocations_only_updated_on_new_peaks() {
    let fid1 = FunctionId::new(1u32);
    let fid3 = FunctionId::new(3u32);

    let mut tracker = AllocationTracker::new(".".to_string());
    let mut cs1 = Callstack::new();
    cs1.start_call(0, CallSiteId::new(fid1, 2));
    let mut cs2 = Callstack::new();
    cs2.start_call(0, CallSiteId::new(fid3, 4));

    let cs1_id = tracker.get_callstack_id(&cs1);

    tracker.add_allocation(1, 1000, cs1_id);
    tracker.check_if_new_peak();
    // Peak should now match current allocations:
    assert_eq!(tracker.usage_vec(), vec![1000]);
    assert_eq!(tracker.usage_vec(), tracker.peak_usage_vec());
    assert_eq!(tracker.get_peak_allocated_bytes(), 1000);
    let previous_peak = tracker.peak_usage_vec();

    // Free the allocation:
    tracker.free_allocation(1);
    assert_eq!(tracker.get_current_allocated_bytes(), 0);
    assert_eq!(tracker.usage_vec(), vec![0]);
    assert_eq!(previous_peak, tracker.peak_usage_vec());
    assert_eq!(tracker.get_peak_allocated_bytes(), 1000);

    // Add allocation, still less than 1000:
    tracker.add_allocation(3, 123, cs1_id);
    assert_eq!(tracker.usage_vec(), vec![123]);
    tracker.check_if_new_peak();
    assert_eq!(previous_peak, tracker.peak_usage_vec());
    assert_eq!(tracker.get_peak_allocated_bytes(), 1000);

    // Add allocation that goes past previous peak
    let cs2_id = tracker.get_callstack_id(&cs2);
    tracker.add_allocation(2, 2000, cs2_id);
    tracker.check_if_new_peak();
    assert_eq!(tracker.usage_vec(), vec![123, 2000]);
    assert_eq!(tracker.usage_vec(), tracker.peak_usage_vec());
    assert_eq!(tracker.get_peak_allocated_bytes(), 2123);
    let previous_peak = tracker.peak_usage_vec();

    // Add anonymous mmap() that doesn't go past previous peak:
    tracker.free_allocation(2);
    assert_eq!(tracker.usage_vec(), vec![123, 0]);
    tracker.add_anon_mmap(50000, 1000, cs2_id);
    assert_eq!(tracker.usage_vec(), vec![123, 1000]);
    tracker.check_if_new_peak();
    assert_eq!(tracker.get_current_allocated_bytes(), 1123);
    assert_eq!(tracker.get_peak_allocated_bytes(), 2123);
    assert_eq!(tracker.peak_usage_vec(), previous_peak);
    assert_eq!(tracker.num_allocations(), 1);
    assert!(tracker.has_allocation(3));
    assert!(tracker.mmap_total() > 0);

    // Add anonymous mmap() that does go past previous peak:
    tracker.add_anon_mmap(600000, 2000, cs2_id);
    assert_eq!(tracker.usage_vec(), vec![123, 3000]);
    tracker.check_if_new_peak();
    assert_eq!(tracker.usage_vec(), tracker.peak_usage_vec());
    assert_eq!(tracker.get_current_allocated_bytes(), 3123);
    assert_eq!(tracker.get_peak_allocated_bytes(), 3123);

    // Remove mmap():
    tracker.free_anon_mmap(50000, 1000);
    assert_eq!(tracker.usage_vec(), vec![123, 2000]);
    tracker.check_if_new_peak();
    assert_eq!(tracker.get_current_allocated_bytes(), 2123);
    assert_eq!(tracker.get_peak_allocated_bytes(), 3123);
    assert_eq!(tracker.mmap_total(), 2000);
    assert!(tracker.mmap_interval_containing(600000).is_some());

    // Partial removal of anonmyous mmap():
    tracker.free_anon_mmap(600100, 1000);
    assert_eq!(tracker.usage_vec(), vec![123, 1000]);
    assert_eq!(tracker.get_current_allocated_bytes(), 1123);
    assert_eq!(tracker.get_peak_allocated_bytes(), 3123);
    assert_eq!(tracker.mmap_total(), 1000);
    tracker.check_if_new_peak();
    assert!(tracker.validate());
}

#[test]
fn combine_callstacks_and_sum_allocations() {
    let mut tracker = AllocationTracker::new(".".to_string());
    let fid1 = tracker
        .functions
        .add_function("a".to_string(), "af".to_string());
    let fid2 = tracker
        .functions
        .add_function("b".to_string(), "bf".to_string());
    let fid3 = tracker
        .functions
        .add_function("c".to_string(), "cf".to_string());

    let id1 = CallSiteId::new(fid1, 1);
    // Same function, different line number—should be different item:
    let id1_different = CallSiteId::new(fid1, 7);
    let id2 = CallSiteId::new(fid2, 2);

    let id3 = CallSiteId::new(fid3, 3);
    let mut cs1 = Callstack::new();
    cs1.start_call(0, id1);
    cs1.start_call(0, id2.clone());
    let mut cs2 = Callstack::new();
    cs2.start_call(0, id3);
    let mut cs3 = Callstack::new();
    cs3.start_call(0, id1_different);
    cs3.start_call(0, id2);
    let cs1_id = tracker.get_callstack_id(&cs1);
    let cs2_id = tracker.get_callstack_id(&cs2);
    let cs3_id = tracker.get_callstack_id(&cs3);
    tracker.add_allocation(1, 1000, cs1_id);
    tracker.add_allocation(2, 234, cs2_id);
    tracker.add_anon_mmap(3, 50000, cs1_id);
    tracker.add_allocation(4, 6000, cs3_id);

    // 234 allocation is too small, below the 99% total allocations
    // threshold, but we always guarantee at least 100 allocations.

    let mut expected2 = vec![
        "a:1 (af);b:2 (bf) 51000",
        "c:3 (cf) 234",
        "a:7 (af);b:2 (bf) 6000",
    ];
    let mut result2: Vec<String> = tracker.to_lines(true, "");
    result2.sort();
    expected2.sort();
    assert_eq!(expected2, result2);
}

#[test]
fn test_unknown_function_id() {
    let func_locations = FunctionLocations::new();
    let (function, filename) = func_locations.get_function_and_filename(FunctionId::unknown());
    assert_eq!(filename, "UNKNOWN DUE TO BUG");
    assert_eq!(function, "UNKNOWN");
}

#[test]
fn small_size_compression_round_trips_exactly() {
    let allocation = Allocation::new(0, 5000);
    assert_eq!(allocation.size(), 5000);
    let just_below = (HIGH_32BIT as usize) - 1;
    let allocation = Allocation::new(0, just_below);
    assert_eq!(allocation.size(), just_below);
}

#[test]
fn large_size_compression_rounds_to_mebibytes() {
    // 6144 MiB plus 300000 bytes: rounds down to exactly 6144 MiB.
    let size = 6144 * MIB + 300000;
    let allocation = Allocation::new(0, size);
    assert_eq!(allocation.size(), 6144 * MIB);
    let diff = size - allocation.size();
    assert!(diff <= MIB / 2);

    // 6144 MiB plus 600000 bytes: rounds up to 6145 MiB.
    let size = 6144 * MIB + 600000;
    let allocation = Allocation::new(0, size);
    assert_eq!(allocation.size(), 6145 * MIB);
    let diff = allocation.size() - size;
    assert!(diff <= MIB / 2);
}

#[test]
fn largest_tracked_size_stays_within_half_a_mebibyte() {
    // The largest size whose mebibyte count fits the 31-bit field:
    let size: usize = 2251799813160959;
    let allocation = Allocation::new(0, size);
    let reconstructed = allocation.size();
    assert_eq!(reconstructed, 2147483647 * MIB);
    let diff = size - reconstructed;
    assert!(diff <= MIB / 2);
}

#[test]
fn current_allocated_tracks_live_allocations() {
    let mut tracker = AllocationTracker::new(".".to_string());
    let mut cs = Callstack::new();
    cs.start_call(0, CallSiteId::new(FunctionId::new(0), 1));
    let cs_id = tracker.get_callstack_id(&cs);

    tracker.add_allocation(100, 10, cs_id);
    assert_eq!(tracker.get_current_allocated_bytes(), 10);
    tracker.add_allocation(200, 300, cs_id);
    assert_eq!(tracker.get_current_allocated_bytes(), 310);
    tracker.add_anon_mmap(1000, 77, cs_id);
    assert_eq!(tracker.get_current_allocated_bytes(), 387);
    assert_eq!(tracker.usage_vec(), vec![387]);

    // Freeing an unknown address changes no totals:
    assert_eq!(tracker.free_allocation(999), None);
    assert_eq!(tracker.get_current_allocated_bytes(), 387);
    assert_eq!(tracker.usage_vec(), vec![387]);
    assert_eq!(tracker.get_failed_deallocations(), 1);

    // After freeing everything, the totals are exactly zero:
    assert_eq!(tracker.free_allocation(100), Some(10));
    assert_eq!(tracker.free_allocation(200), Some(300));
    tracker.free_anon_mmap(1000, 77);
    assert_eq!(tracker.get_current_allocated_bytes(), 0);
    assert_eq!(tracker.usage_vec(), vec![0]);
    tracker.check_if_new_peak();
    assert!(tracker.validate());
}

#[test]
fn address_reuse_moves_bytes_to_missing() {
    let mut tracker = AllocationTracker::new(".".to_string());
    let mut cs = Callstack::new();
    cs.start_call(0, CallSiteId::new(FunctionId::new(0), 1));
    let cs_id = tracker.get_callstack_id(&cs);

    tracker.add_allocation(100, 40, cs_id);
    // Same address again without an observed free:
    tracker.add_allocation(100, 25, cs_id);
    assert_eq!(tracker.get_current_allocated_bytes(), 25);
    assert_eq!(tracker.get_missing_allocated_bytes(), 40);
    assert_eq!(tracker.get_allocation_size(100), 25);
    assert_eq!(tracker.num_allocations(), 1);
}

#[test]
fn partial_mmap_release_keeps_attribution() {
    let mut tracker = AllocationTracker::new(".".to_string());
    let mut cs = Callstack::new();
    cs.start_call(0, CallSiteId::new(FunctionId::new(0), 1));
    let cs_id = tracker.get_callstack_id(&cs);

    // A 2,000-byte mapping starting at address 100:
    tracker.add_anon_mmap(100, 2000, cs_id);
    assert_eq!(tracker.mmap_total(), 2000);

    // Release the middle 1,000 bytes:
    tracker.free_anon_mmap(600, 1000);
    assert_eq!(tracker.mmap_total(), 1000);
    assert_eq!(tracker.get_current_allocated_bytes(), 1000);
    assert_eq!(tracker.usage_vec(), vec![1000]);
    assert!(tracker.mmap_interval_containing(100).is_some());
    assert!(tracker.mmap_interval_containing(599).is_some());
    assert!(tracker.mmap_interval_containing(600).is_none());
    assert!(tracker.mmap_interval_containing(1599).is_none());
    assert!(tracker.mmap_interval_containing(1600).is_some());
    assert!(tracker.mmap_interval_containing(2099).is_some());
    tracker.check_if_new_peak();
    assert!(tracker.validate());
}

#[test]
fn filter_keeps_at_least_one_hundred_entries() {
    let mut allocations: im::Vector<usize> = im::Vector::new();
    // One huge entry followed by 150 tiny ones:
    allocations.push_back(100000);
    for _ in 0..150 {
        allocations.push_back(1);
    }
    let filtered = memapi::report::filter_to_useful_callstacks(&allocations);
    // The huge entry alone passes 99% of the mass, but at least 100
    // entries are kept for context:
    assert_eq!(filtered.len(), 100);
    assert_eq!(filtered[0], (0, 100000));
    let total: usize = filtered.iter().map(|p| p.1).sum();
    assert_eq!(total, 100099);
}

#[test]
fn filter_covers_most_of_the_mass() {
    let mut allocations: im::Vector<usize> = im::Vector::new();
    for i in 0..120 {
        allocations.push_back(if i % 3 == 0 { 0 } else { i });
    }
    let filtered = memapi::report::filter_to_useful_callstacks(&allocations);
    // Zero entries are dropped, everything else is kept (fewer than 100
    // nonzero entries in all):
    assert_eq!(filtered.len(), 80);
    for (id, size) in &filtered {
        assert!(*size > 0);
        assert_eq!(*size, (*id) as usize);
    }
    // Sorted descending:
    for w in filtered.windows(2) {
        assert!(w[0].1 >= w[1].1);
    }
}

#[test]
fn reset_keeps_identities_but_zeroes_totals() {
    let mut tracker = AllocationTracker::new(".".to_string());
    let mut cs = Callstack::new();
    cs.start_call(0, CallSiteId::new(FunctionId::new(0), 1));
    let cs_id = tracker.get_callstack_id(&cs);
    tracker.add_allocation(7, 500, cs_id);
    tracker.check_if_new_peak();

    tracker.reset("/tmp".to_string());
    assert_eq!(tracker.get_current_allocated_bytes(), 0);
    assert_eq!(tracker.get_peak_allocated_bytes(), 0);
    assert_eq!(tracker.usage_vec(), vec![0]);
    assert_eq!(tracker.peak_usage_vec(), vec![]);
    // The identity survives the reset:
    let cs_id_after = tracker.get_callstack_id(&cs);
    assert_eq!(cs_id, cs_id_after);
    assert!(tracker.validate());
}

#[test]
fn empty_stack_renders_placeholder() {
    let functions = FunctionLocations::new();
    let cs = Callstack::new();
    assert_eq!(cs.as_string(&functions, ";", ""), "[No Python stack]");
}

#[test]
fn runpy_prefix_is_trimmed() {
    let mut functions = FunctionLocations::new();
    let frp = functions.add_function("/lib/runpy.py".to_string(), "run".to_string());
    let fa = functions.add_function("a".to_string(), "af".to_string());
    let mut cs = Callstack::new();
    cs.start_call(0, CallSiteId::new(frp, 1));
    cs.start_call(0, CallSiteId::new(frp, 2));
    cs.start_call(0, CallSiteId::new(fa, 3));
    assert_eq!(
        cs.as_string(&functions, ";", "/lib/runpy.py"),
        "a:3 (af)"
    );
    // If every frame is bootstrap, nothing is trimmed:
    let mut cs2 = Callstack::new();
    cs2.start_call(0, CallSiteId::new(frp, 1));
    assert_eq!(
        cs2.as_string(&functions, ";", "/lib/runpy.py"),
        "/lib/runpy.py:1 (run)"
    );
}

#[test]
fn decimal_rendering_is_exact() {
    assert_eq!(usize_to_string(0), "0");
    assert_eq!(usize_to_string(7), "7");
    assert_eq!(usize_to_string(12345), "12345");
    assert_eq!(usize_to_string(1000000), "1000000");
}

#[test]
fn source_line_escaping() {
    assert_eq!(
        escape_source_line("x = alloc(10);  # big \n"),
        "x\u{12e4}=\u{12e4}alloc(10)\u{ff1b}\u{12e4}\u{12e4}#\u{12e4}big\u{12e4}"
    );
    assert_eq!(escape_source_line("   \t\n"), "\u{12e4}\u{12e4}\u{12e4}");
}

#[test]
fn annotated_frame_carries_escaped_source() {
    let mut functions = FunctionLocations::new();
    let fa = functions.add_function("a.py".to_string(), "af".to_string());
    let frames = vec![CallSiteId::new(fa, 12)];
    let codes = vec!["x = 1; y".to_string()];
    let line = memapi::fmt::line_string_annotated(&frames, &functions, "", &codes, 500);
    assert_eq!(
        line,
        "a.py:12 (af);\u{2800}x\u{12e4}=\u{12e4}1\u{ff1b}\u{12e4}y 500"
    );
}

#[test]
fn oom_teardown_keeps_current_state_reportable() {
    let mut tracker = AllocationTracker::new(".".to_string());
    let fid = tracker
        .functions
        .add_function("a".to_string(), "af".to_string());
    let mut cs = Callstack::new();
    cs.start_call(0, CallSiteId::new(fid, 1));
    let cs_id = tracker.get_callstack_id(&cs);
    tracker.add_allocation(1, 4000, cs_id);
    tracker.check_if_new_peak();

    tracker.oom_break_glass();
    assert_eq!(tracker.num_allocations(), 0);
    assert_eq!(tracker.peak_usage_vec(), vec![]);
    // The current-state report still works:
    let lines = tracker.to_lines(false, "");
    assert_eq!(lines, vec!["a:1 (af) 4000".to_string()]);
}
