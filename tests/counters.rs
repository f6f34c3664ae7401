use copyforward::instrumentation::{
    add_candidates, add_chars, add_duration_table_build_ns, add_extension_ns, add_kmers, add_lookup,
    add_lookup_count, add_table_build_ns, add_winner_chars_recovered, add_winner_extension,
    counters_snapshot, lookup_stats_snapshot, reset_counters, winner_stats_snapshot, Counters,
};

#[test]
fn counters_accumulate_and_reset() {
    let mut c = Counters::default();
    add_kmers(&mut c, 5);
    add_kmers(&mut c, 2);
    add_table_build_ns(&mut c, 10);
    add_duration_table_build_ns(&mut c, 1);
    add_lookup(&mut c, 3);
    add_candidates(&mut c, 4);
    add_chars(&mut c, 9);
    add_extension_ns(&mut c, 8);
    assert_eq!(counters_snapshot(&c), (7, 11, 3, 4, 9, 8));
    reset_counters(&mut c);
    assert_eq!(counters_snapshot(&c), (0, 0, 0, 0, 0, 0));
    assert_eq!(lookup_stats_snapshot(&c), (0, 0, 0));
    assert_eq!(winner_stats_snapshot(&c), (0, 0));
}

#[test]
fn lookup_stats_track_sum_count_and_max() {
    let mut c = Counters::default();
    add_lookup_count(&mut c, 3);
    add_lookup_count(&mut c, 10);
    add_lookup_count(&mut c, 4);
    assert_eq!(lookup_stats_snapshot(&c), (3, 17, 10));
}

#[test]
fn winner_stats_and_wrapping() {
    let mut c = Counters::default();
    add_winner_extension(&mut c, 2);
    add_winner_chars_recovered(&mut c, 40);
    assert_eq!(winner_stats_snapshot(&c), (2, 40));
    add_chars(&mut c, u64::MAX);
    add_chars(&mut c, 2);
    assert_eq!(counters_snapshot(&c).4, 1);
}
