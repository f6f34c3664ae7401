//! Diagnostic counters for profiling the matchers: windows indexed, lookups,
//! candidates examined, bytes compared, time spent, and statistics on winner
//! extensions. The counters live in a caller-owned [`Counters`] value; every
//! addition wraps around modulo 2^64, and nothing in the matchers depends on them.
use vstd::prelude::*;
use vstd::wrapping::u64_specs::wrapping_add;

verus! {

/// The counters.
#[derive(Debug, Clone, Copy, Default)]
pub struct Counters {
    pub kmers_inserted: u64,
    pub table_build_ns: u64,
    pub lookup_count: u64,
    pub candidates_examined: u64,
    pub chars_compared: u64,
    pub extension_ns: u64,
    pub sum_candidates: u64,
    pub num_lookups: u64,
    pub max_candidates: u64,
    pub winner_extensions: u64,
    pub winner_chars_recovered: u64,
}

/// Sets every counter to zero.
pub fn reset_counters(c: &mut Counters)
    ensures
        *final(c) == (Counters {
            kmers_inserted: 0,
            table_build_ns: 0,
            lookup_count: 0,
            candidates_examined: 0,
            chars_compared: 0,
            extension_ns: 0,
            sum_candidates: 0,
            num_lookups: 0,
            max_candidates: 0,
            winner_extensions: 0,
            winner_chars_recovered: 0,
        }),
{
    *c = Counters {
        kmers_inserted: 0,
        table_build_ns: 0,
        lookup_count: 0,
        candidates_examined: 0,
        chars_compared: 0,
        extension_ns: 0,
        sum_candidates: 0,
        num_lookups: 0,
        max_candidates: 0,
        winner_extensions: 0,
        winner_chars_recovered: 0,
    };
}

/// `(kmers inserted, table build ns, lookups, candidates examined, bytes
/// compared, extension ns)`.
pub fn counters_snapshot(c: &Counters) -> (r: (u64, u64, u64, u64, u64, u64))
    ensures
        r == (
            c.kmers_inserted,
            c.table_build_ns,
            c.lookup_count,
            c.candidates_examined,
            c.chars_compared,
            c.extension_ns,
        ),
{
    (
        c.kmers_inserted,
        c.table_build_ns,
        c.lookup_count,
        c.candidates_examined,
        c.chars_compared,
        c.extension_ns,
    )
}

/// Adds `n` nanoseconds of table building.
pub fn add_duration_table_build_ns(c: &mut Counters, n: u64)
    ensures
        *final(c) == (Counters { table_build_ns: wrapping_add(
            old(c).table_build_ns,
            n,
        ), ..*old(c) }),
{
    add_table_build_ns(c, n);
}

/// Records a lookup that produced `n_candidates` candidates.
pub fn add_lookup_count(c: &mut Counters, n_candidates: usize)
    ensures
        *final(c) == (Counters {
            sum_candidates: wrapping_add(old(c).sum_candidates, n_candidates as u64),
            num_lookups: wrapping_add(old(c).num_lookups, 1),
            max_candidates: if old(c).max_candidates >= n_candidates as u64 {
                old(c).max_candidates
            } else {
                n_candidates as u64
            },
            ..*old(c)
        }),
{
    let n64 = n_candidates as u64;
    c.sum_candidates = c.sum_candidates.wrapping_add(n64);
    c.num_lookups = c.num_lookups.wrapping_add(1);
    if c.max_candidates < n64 {
        c.max_candidates = n64;
    }
}

/// `(lookups, sum of candidates, most candidates in one lookup)`.
pub fn lookup_stats_snapshot(c: &Counters) -> (r: (u64, u64, u64))
    ensures
        r == (c.num_lookups, c.sum_candidates, c.max_candidates),
{
    (c.num_lookups, c.sum_candidates, c.max_candidates)
}

/// Adds `n` winner extensions.
pub fn add_winner_extension(c: &mut Counters, n: u64)
    ensures
        *final(c) == (Counters {
            winner_extensions: wrapping_add(old(c).winner_extensions, n),
            ..*old(c)
        }),
{
    c.winner_extensions = c.winner_extensions.wrapping_add(n);
}

/// Adds `n` bytes recovered by winner extensions.
pub fn add_winner_chars_recovered(c: &mut Counters, n: u64)
    ensures
        *final(c) == (Counters {
            winner_chars_recovered: wrapping_add(old(c).winner_chars_recovered, n),
            ..*old(c)
        }),
{
    c.winner_chars_recovered = c.winner_chars_recovered.wrapping_add(n);
}

/// `(winner extensions, bytes they recovered)`.
pub fn winner_stats_snapshot(c: &Counters) -> (r: (u64, u64))
    ensures
        r == (c.winner_extensions, c.winner_chars_recovered),
{
    (c.winner_extensions, c.winner_chars_recovered)
}

/// Adds `n` indexed windows.
pub fn add_kmers(c: &mut Counters, n: u64)
    ensures
        *final(c) == (Counters { kmers_inserted: wrapping_add(
            old(c).kmers_inserted,
            n,
        ), ..*old(c) }),
{
    c.kmers_inserted = c.kmers_inserted.wrapping_add(n);
}

/// Adds `n` nanoseconds of table building.
pub fn add_table_build_ns(c: &mut Counters, n: u64)
    ensures
        *final(c) == (Counters { table_build_ns: wrapping_add(
            old(c).table_build_ns,
            n,
        ), ..*old(c) }),
{
    c.table_build_ns = c.table_build_ns.wrapping_add(n);
}

/// Adds `n` lookups.
pub fn add_lookup(c: &mut Counters, n: u64)
    ensures
        *final(c) == (Counters { lookup_count: wrapping_add(old(c).lookup_count, n), ..*old(c) }),
{
    c.lookup_count = c.lookup_count.wrapping_add(n);
}

/// Adds `n` examined candidates.
pub fn add_candidates(c: &mut Counters, n: u64)
    ensures
        *final(c) == (Counters {
            candidates_examined: wrapping_add(old(c).candidates_examined, n),
            ..*old(c)
        }),
{
    c.candidates_examined = c.candidates_examined.wrapping_add(n);
}

/// Adds `n` compared bytes.
pub fn add_chars(c: &mut Counters, n: u64)
    ensures
        *final(c) == (Counters { chars_compared: wrapping_add(
            old(c).chars_compared,
            n,
        ), ..*old(c) }),
{
    c.chars_compared = c.chars_compared.wrapping_add(n);
}

/// Adds `n` nanoseconds of extension.
pub fn add_extension_ns(c: &mut Counters, n: u64)
    ensures
        *final(c) == (Counters { extension_ns: wrapping_add(old(c).extension_ns, n), ..*old(c) }),
{
    c.extension_ns = c.extension_ns.wrapping_add(n);
}

} // verus!
