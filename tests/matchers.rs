use copyforward::{
    CappedHashedGreedy, CopyForward, GreedySubstring, GreedySubstringConfig, HashedGreedy,
    HashedGreedyBinary, Segment,
};
use rand_chacha::rand_core::{RngCore, SeedableRng};
use rand_chacha::ChaCha8Rng;

const WORDS: [&str; 24] = [
    "token", "expiration", "policy", "secure", "storage", "system", "review", "deploy", "cache",
    "latency", "thread", "reply", "quote", "message", "server", "client", "update", "schema",
    "migrate", "rollback", "metric", "alert", "budget", "design",
];

/// A deterministic thread of `n` messages, each quoting the whole previous
/// message line by line (`> `) and adding a reply of `words_per_reply` words.
fn generate_thread(seed: u64, n: usize, words_per_reply: usize) -> Vec<String> {
    let mut rng = ChaCha8Rng::seed_from_u64(seed);
    let mut msgs: Vec<String> = Vec::with_capacity(n);
    for _ in 0..n {
        let mut reply = String::new();
        for w in 0..words_per_reply {
            if w > 0 {
                reply.push(' ');
            }
            reply.push_str(WORDS[(rng.next_u32() as usize) % WORDS.len()]);
        }
        let msg = match msgs.last() {
            Some(prev) => {
                let quoted: Vec<String> = prev.lines().map(|l| format!("> {l}")).collect();
                format!("{}\n{}", quoted.join("\n"), reply)
            }
            None => reply,
        };
        msgs.push(msg);
    }
    msgs
}

fn identity(_m: usize, _s: usize, _l: usize, text: &[u8]) -> Vec<u8> {
    text.to_vec()
}

fn bytes_of(msgs: &[&str]) -> Vec<Vec<u8>> {
    msgs.iter().map(|m| m.as_bytes().to_vec()).collect()
}

fn config(min_match_len: usize) -> GreedySubstringConfig {
    GreedySubstringConfig { min_match_len, lookback: None }
}

fn build_all(cfg: &GreedySubstringConfig, msgs: &[&str]) -> Vec<(&'static str, Vec<Vec<Segment>>, Vec<Vec<u8>>)> {
    let g = GreedySubstring::with_config(cfg, msgs);
    let h = HashedGreedy::with_config(cfg, msgs);
    let b = HashedGreedyBinary::with_config(cfg, msgs);
    let c = CappedHashedGreedy::with_config(cfg, msgs);
    vec![
        ("greedy", g.segments(), g.render_with(identity)),
        ("hashed", h.segments(), h.render_with(identity)),
        ("binary", b.segments(), b.render_with(identity)),
        ("capped", c.segments(), c.render_with(identity)),
    ]
}

/// Checks coverage, causality and bounds of an encoding.
fn check_invariants(msgs: &[&str], segs: &[Vec<Segment>], k: usize) {
    assert_eq!(segs.len(), msgs.len());
    for (i, row) in segs.iter().enumerate() {
        let mut total = 0usize;
        for seg in row {
            match seg {
                Segment::Literal(b) => {
                    assert!(!b.is_empty());
                    assert_eq!(&msgs[i].as_bytes()[total..total + b.len()], &b[..]);
                    total += b.len();
                }
                Segment::Reference { message_idx, start, len } => {
                    assert!(*message_idx < i);
                    assert!(start + len <= msgs[*message_idx].len());
                    assert!(*len >= k);
                    assert_eq!(
                        &msgs[i].as_bytes()[total..total + len],
                        &msgs[*message_idx].as_bytes()[*start..start + len]
                    );
                    total += len;
                }
            }
        }
        assert_eq!(total, msgs[i].len());
    }
}

fn run_render_with_lambda_replaces_references<C: CopyForward>(cf: C) {
    let rendered = cf.render_with(|m_idx, start, len, referenced_text| {
        let text = String::from_utf8_lossy(referenced_text);
        format!("<ref {m_idx}:{start}+{len}='{text}'>").into_bytes()
    });
    assert_eq!(
        rendered,
        vec![
            "hello world".as_bytes().to_vec(),
            "<ref 0:0+11='hello world'> today".as_bytes().to_vec()
        ]
    );
}

#[test]
fn render_with_lambda_replaces_references() {
    let msgs = &["hello world", "hello world today"];
    run_render_with_lambda_replaces_references(GreedySubstring::from_messages(msgs));
    run_render_with_lambda_replaces_references(HashedGreedy::from_messages(msgs));
    run_render_with_lambda_replaces_references(HashedGreedyBinary::from_messages(msgs));
}

fn run_fixture_thread_is_deduped_substantially<C: CopyForward>(name: &str, orig_msgs: Vec<String>) {
    let refs: Vec<&str> = orig_msgs.iter().map(|s| s.as_str()).collect();
    let cf = C::from_messages(&refs);
    let segs = cf.segments();
    let deduped: usize = segs
        .iter()
        .flat_map(|v| v.iter())
        .map(|seg| match seg {
            Segment::Literal(s) => s.len(),
            Segment::Reference { .. } => 3,
        })
        .sum();
    let orig: usize = orig_msgs.iter().map(|s| s.len()).sum();
    assert!(
        deduped as f64 <= (orig as f64) * 0.5,
        "{}: deduped={} orig={} segments={}",
        name,
        deduped,
        orig,
        segs.iter().map(|v| v.len()).sum::<usize>()
    );
    assert_eq!(cf.render_with(identity), bytes_of(&refs));
}

#[test]
fn fixture_thread_is_deduped_substantially() {
    let target_kb = 25usize;
    let mut n = 4usize;
    let mut msgs: Vec<String> = Vec::new();
    let mut orig = 0usize;
    while orig < target_kb * 1024 {
        msgs = generate_thread(12345, n, 5);
        orig = msgs.iter().map(|s| s.len()).sum();
        n *= 2;
        if n > 4096 {
            break;
        }
    }
    assert!(orig >= target_kb * 1024);

    run_fixture_thread_is_deduped_substantially::<GreedySubstring>("GreedySubstring", msgs.clone());
    run_fixture_thread_is_deduped_substantially::<HashedGreedy>("HashedGreedy", msgs.clone());
    run_fixture_thread_is_deduped_substantially::<HashedGreedyBinary>("HashedGreedyBinary", msgs.clone());
    run_fixture_thread_is_deduped_substantially::<CappedHashedGreedy>("CappedHashedGreedy", msgs);
}

fn run_partial_overlaps_across_multiple_messages<C: CopyForward>() {
    let msgs = &[
        "hello world everyone",
        "world peace and harmony",
        "hello world peace and joy for everyone",
    ];
    let cf = C::from_messages(msgs);
    let segs = cf.segments();
    assert!(segs[2].len() >= 2, "Should have multiple segments");
    let rendered = cf.render_with(|_, _, _, text| text.to_vec());
    assert_eq!(rendered[2], "hello world peace and joy for everyone".as_bytes().to_vec());
    let has_long_match = segs[2].iter().any(|seg| match seg {
        Segment::Reference { len, .. } if *len >= GreedySubstringConfig::default().min_match_len => {
            true
        }
        _ => false,
    });
    assert!(has_long_match, "Should have at least one match of 10+ characters");
}

#[test]
fn partial_overlaps_across_multiple_messages() {
    run_partial_overlaps_across_multiple_messages::<GreedySubstring>();
    run_partial_overlaps_across_multiple_messages::<HashedGreedy>();
    run_partial_overlaps_across_multiple_messages::<HashedGreedyBinary>();
}

fn run_finds_longest_common_substrings<C: CopyForward>() {
    let msgs = &[
        "The quick brown fox jumps over the lazy dog",
        "A quick brown fox is very fast",
        "The quick brown fox is amazing and the lazy dog sleeps",
    ];
    let cf = C::from_messages(msgs);
    let segs = cf.segments();
    let longest_match = segs[2]
        .iter()
        .filter_map(|seg| match seg {
            Segment::Reference { len, .. } => Some(*len),
            _ => None,
        })
        .max()
        .unwrap_or(0);
    assert!(
        longest_match >= GreedySubstringConfig::default().min_match_len,
        "Should find matches of at least {} characters, found {}",
        GreedySubstringConfig::default().min_match_len,
        longest_match
    );
    assert!(segs[2].len() <= 5, "Should use few segments with long matches, got {}", segs[2].len());
}

#[test]
fn finds_longest_common_substrings() {
    run_finds_longest_common_substrings::<GreedySubstring>();
    run_finds_longest_common_substrings::<HashedGreedy>();
    run_finds_longest_common_substrings::<HashedGreedyBinary>();
}

fn run_handles_overlapping_substrings_efficiently<C: CopyForward>() {
    let msgs = &[
        "programming is programming and more programming",
        "I love programming and programming languages",
        "programming and programming languages are great for programming",
    ];
    let cf = C::from_messages(msgs);
    let segs = cf.segments();
    let rendered = cf.render_with(|_, _, _, text| text.to_vec());
    assert_eq!(
        rendered[2],
        "programming and programming languages are great for programming".as_bytes().to_vec()
    );
    let ref_count = segs[2].iter().filter(|seg| matches!(seg, Segment::Reference { .. })).count();
    assert!(ref_count >= 2, "Should find multiple non-overlapping references");
}

#[test]
fn handles_overlapping_substrings_efficiently() {
    run_handles_overlapping_substrings_efficiently::<GreedySubstring>();
    run_handles_overlapping_substrings_efficiently::<HashedGreedy>();
    run_handles_overlapping_substrings_efficiently::<HashedGreedyBinary>();
}

fn run_respects_minimum_match_length_realistically<C: CopyForward>() {
    let msgs = &[
        "This is a short test message for our algorithm",
        "Another short test of the algorithm implementation",
        "This is a short test that validates our algorithm works correctly",
    ];
    let cf = C::from_messages(msgs);
    let segs = cf.segments();
    for seg in segs[2].iter() {
        if let Segment::Reference { len, .. } = seg {
            assert!(
                *len >= GreedySubstringConfig::default().min_match_len,
                "Found reference shorter than min_match_len: {}",
                len
            );
        }
    }
    let has_long_match = segs[2].iter().any(|seg| match seg {
        Segment::Reference { len, .. } => *len >= GreedySubstringConfig::default().min_match_len,
        _ => false,
    });
    assert!(
        has_long_match,
        "Should find at least one match >= {} characters",
        GreedySubstringConfig::default().min_match_len
    );
}

#[test]
fn respects_minimum_match_length_realistically() {
    run_respects_minimum_match_length_realistically::<GreedySubstring>();
    run_respects_minimum_match_length_realistically::<HashedGreedy>();
    run_respects_minimum_match_length_realistically::<HashedGreedyBinary>();
}

fn run_finds_substrings_from_middle_of_messages<C: CopyForward>() {
    let msgs = &[
        "Hello everyone, the weather is absolutely wonderful today!",
        "I hope that the weather stays wonderful for the weekend",
        "Yes, the weather is wonderful and I love these sunny days",
    ];
    let cf = C::from_messages(msgs);
    let segs = cf.segments();
    let has_middle_match = segs[2].iter().any(|seg| match seg {
        Segment::Reference { message_idx, start, len } => {
            *len >= 12 && *start > 0 && *message_idx < 2
        }
        _ => false,
    });
    assert!(has_middle_match, "Should find substring matches from middle of previous messages");
}

#[test]
fn finds_substrings_from_middle_of_messages() {
    let config = GreedySubstringConfig { min_match_len: 12, lookback: None };
    assert_eq!(config.min_match_len, 12);
    run_finds_substrings_from_middle_of_messages::<GreedySubstring>();
    run_finds_substrings_from_middle_of_messages::<HashedGreedy>();
    run_finds_substrings_from_middle_of_messages::<HashedGreedyBinary>();
}

fn run_handles_multiple_references_to_same_substring<C: CopyForward>() {
    let msgs = &[
        "artificial intelligence and machine learning",
        "machine learning algorithms use artificial intelligence",
        "artificial intelligence powers machine learning and machine learning improves artificial intelligence",
    ];
    let cf = C::from_messages(msgs);
    let segs = cf.segments();
    let ref_segments: Vec<usize> = segs[2]
        .iter()
        .filter_map(|seg| match seg {
            Segment::Reference { len, .. } => Some(*len),
            _ => None,
        })
        .collect();
    assert!(ref_segments.len() >= 2, "Should find multiple long references");
    assert!(
        ref_segments.iter().any(|&len| len >= GreedySubstringConfig::default().min_match_len),
        "Should find references >= {} chars",
        GreedySubstringConfig::default().min_match_len
    );
}

#[test]
fn handles_multiple_references_to_same_substring() {
    run_handles_multiple_references_to_same_substring::<GreedySubstring>();
    run_handles_multiple_references_to_same_substring::<HashedGreedy>();
    run_handles_multiple_references_to_same_substring::<HashedGreedyBinary>();
}

fn run_compression_with_realistic_conversation<C: CopyForward>() {
    let msgs = &[
        "Let's implement the new authentication system using JWT tokens for security",
        "> Let's implement the new authentication system using JWT tokens for security\nI agree, but what about token expiration policies?",
        ">> Let's implement the new authentication system using JWT tokens for security\n> I agree, but what about token expiration policies?\nGood point about token expiration policies. We should also consider secure storage",
        ">>> Let's implement the new authentication system using JWT tokens for security\n>> I agree, but what about token expiration policies?\n> Good point about token expiration policies. We should also consider secure storage\nAll these points about JWT tokens for security and token expiration policies are valid",
    ];
    let cf = C::from_messages(msgs);
    let segs = cf.segments();
    let original_size: usize = msgs.iter().map(|s| s.len()).sum();
    let compressed_size: usize = segs
        .iter()
        .flat_map(|v| v.iter())
        .map(|seg| match seg {
            Segment::Literal(s) => s.len(),
            Segment::Reference { .. } => 10,
        })
        .sum();
    let compression_ratio = compressed_size as f64 / original_size as f64;
    assert!(
        compression_ratio < 0.5,
        "Should achieve major compression with nested quotes: {:.2}%",
        compression_ratio * 100.0
    );
    let has_meaningful_matches = segs.iter().skip(1).any(|msg_segs| {
        msg_segs.iter().any(|seg| match seg {
            Segment::Reference { len, .. } => *len >= GreedySubstringConfig::default().min_match_len,
            _ => false,
        })
    });
    assert!(has_meaningful_matches, "Should find meaningful phrase matches across messages");
}

#[test]
fn compression_with_realistic_conversation() {
    run_compression_with_realistic_conversation::<GreedySubstring>();
    run_compression_with_realistic_conversation::<HashedGreedy>();
    run_compression_with_realistic_conversation::<HashedGreedyBinary>();
}

#[test]
fn hello_world_scenario_all_matchers() {
    let msgs = ["hello world", "hello world today"];
    for (name, segs, rendered) in build_all(&config(10), &msgs) {
        assert_eq!(
            segs[1],
            vec![
                Segment::Reference { message_idx: 0, start: 0, len: 11 },
                Segment::Literal(b" today".to_vec())
            ],
            "{name}"
        );
        assert_eq!(segs[0], vec![Segment::Literal(b"hello world".to_vec())], "{name}");
        assert_eq!(rendered, bytes_of(&msgs), "{name}");
    }
}

#[test]
fn capped_references_long_shared_prefix() {
    let base = "a fairly long opening line that is quoted again in the next message";
    let reply = format!("{base} today");
    let msgs = [base, reply.as_str()];
    let c = CappedHashedGreedy::with_config(&config(10), &msgs);
    assert_eq!(
        c.segments()[1],
        vec![
            Segment::Reference { message_idx: 0, start: 0, len: base.len() },
            Segment::Literal(b" today".to_vec())
        ]
    );
    assert_eq!(c.render_with(identity), bytes_of(&msgs));
}

#[test]
fn short_messages_stay_literal() {
    let msgs = ["abc", "xyz"];
    for (name, segs, rendered) in build_all(&config(4), &msgs) {
        assert_eq!(segs[0], vec![Segment::Literal(b"abc".to_vec())], "{name}");
        assert_eq!(segs[1], vec![Segment::Literal(b"xyz".to_vec())], "{name}");
        assert_eq!(rendered, bytes_of(&msgs), "{name}");
    }
}

#[test]
fn round_trip_on_edge_cases() {
    let cases: Vec<Vec<&str>> = vec![
        vec![],
        vec![""],
        vec!["", "", ""],
        vec!["a", "a", "aa", "aaa"],
        vec!["abcabcabc", "", "bcabcab", "cabcabcabcabc"],
        vec!["héllo wörld", "héllo wörld again", "wörld héllo"],
        vec!["xyzxyzxyzxyz", "xyzxyzxyzxyzxyzxyz"],
    ];
    for msgs in &cases {
        for k in [1usize, 2, 3, 4, 10] {
            for (name, segs, rendered) in build_all(&config(k), msgs) {
                assert_eq!(rendered, bytes_of(msgs), "{name} k={k}");
                check_invariants(msgs, &segs, k);
            }
        }
    }
}

#[test]
fn matchers_render_alike_on_small_inputs() {
    let msgs = [
        "the cat sat on the mat",
        "the cat sat on the hat and the mat",
        "a hat, a mat, the cat sat",
    ];
    let all = build_all(&config(3), &msgs);
    for (_, _, rendered) in &all {
        assert_eq!(rendered, &all[0].2);
    }
}

#[test]
fn greedy_picks_longest_and_first() {
    // "abcd" occurs in both earlier messages; the longer match is in message 1.
    let msgs = ["xxabcdyy", "abcdefgh", "abcdefgh!"];
    let g = GreedySubstring::with_config(&config(4), &msgs);
    let segs = g.segments();
    assert_eq!(segs[2][0], Segment::Reference { message_idx: 1, start: 0, len: 8 });
    assert_eq!(segs[2][1], Segment::Literal(b"!".to_vec()));
    // Equal lengths: the first in scan order (lower message) wins.
    let msgs = ["abcd", "abcd", "abcd"];
    let g = GreedySubstring::with_config(&config(2), &msgs);
    assert_eq!(g.segments()[2], vec![Segment::Reference { message_idx: 0, start: 0, len: 4 }]);
}

#[test]
fn lookback_limits_sources() {
    let msgs = ["shared phrase here", "unrelated", "shared phrase here"];
    let cfg = GreedySubstringConfig { min_match_len: 4, lookback: Some(1) };
    let g = GreedySubstring::with_config(&cfg, &msgs);
    assert_eq!(g.segments()[2], vec![Segment::Literal(b"shared phrase here".to_vec())]);
    for (name, segs, rendered) in build_all(&cfg, &msgs) {
        assert!(segs[2].iter().all(|s| matches!(s, Segment::Literal(_))), "{name}");
        assert_eq!(rendered, bytes_of(&msgs), "{name}");
    }
    let cfg = GreedySubstringConfig { min_match_len: 4, lookback: Some(2) };
    for (name, segs, _) in build_all(&cfg, &msgs) {
        assert_eq!(
            segs[2],
            vec![Segment::Reference { message_idx: 0, start: 0, len: 18 }],
            "{name}"
        );
    }
}

#[test]
fn literal_runs_to_next_match() {
    let msgs = ["wxyz", "abcwxyzdef"];
    for (name, segs, _) in build_all(&config(4), &msgs) {
        assert_eq!(
            segs[1],
            vec![
                Segment::Literal(b"abc".to_vec()),
                Segment::Reference { message_idx: 0, start: 0, len: 4 },
                Segment::Literal(b"def".to_vec())
            ],
            "{name}"
        );
    }
}

#[test]
fn capped_full_extension_beyond_cap_window() {
    let long: String = (0..300).map(|i| (b'a' + (i * 7 % 26) as u8) as char).collect();
    let second = format!("{long}!");
    let msgs = [long.as_str(), second.as_str()];
    let c = CappedHashedGreedy::with_config(&config(4), &msgs);
    let segs = c.segments();
    assert_eq!(segs[1][0], Segment::Reference { message_idx: 0, start: 0, len: 300 });
    assert_eq!(segs[1][1], Segment::Literal(b"!".to_vec()));
    let b = HashedGreedyBinary::with_config(&config(4), &msgs);
    assert_eq!(b.segments()[1][0], Segment::Reference { message_idx: 0, start: 0, len: 300 });
}

#[test]
fn render_with_static_marks_references() {
    let msgs = ["hello world", "hello world today"];
    let expected = vec![b"hello world".to_vec(), b"[R] today".to_vec()];
    assert_eq!(GreedySubstring::with_config(&config(10), &msgs).render_with_static(b"[R]"), expected);
    assert_eq!(HashedGreedy::with_config(&config(10), &msgs).render_with_static(b"[R]"), expected);
    assert_eq!(HashedGreedyBinary::with_config(&config(10), &msgs).render_with_static(b"[R]"), expected);
    assert_eq!(CappedHashedGreedy::with_config(&config(10), &msgs).render_with_static(b"[R]"), expected);
}

#[test]
fn default_config_has_threshold_four() {
    let cfg = GreedySubstringConfig::default();
    assert_eq!(cfg.min_match_len, 4);
    assert_eq!(cfg.lookback, None);
}

#[test]
fn distinct_messages_stay_literal() {
    let msgs = ["abcdefgh", "ijklmnop", "qrstuvwx"];
    for (name, segs, _) in build_all(&config(2), &msgs) {
        for row in &segs {
            assert!(row.iter().all(|s| matches!(s, Segment::Literal(_))), "{name}");
        }
    }
}

/// A Thue-Morse block and its complement: different bytes, equal rolling
/// hash modulo 2^64 for any odd base.
fn thue_morse_pair(n: usize) -> (String, String) {
    let t: String = (0..n).map(|i: usize| if i.count_ones() % 2 == 0 { 'a' } else { 'b' }).collect();
    let u: String = (0..n).map(|i: usize| if i.count_ones() % 2 == 0 { 'b' } else { 'a' }).collect();
    (t, u)
}

#[test]
fn hash_collisions_never_corrupt_output() {
    let (t, u) = thue_morse_pair(256);
    assert_ne!(t, u);
    let ht = copyforward::rolling::prefix_hashes(t.as_bytes());
    let hu = copyforward::rolling::prefix_hashes(u.as_bytes());
    assert_eq!(ht.0[256], hu.0[256]);
    let msgs = [t.as_str(), u.as_str()];
    for (name, segs, rendered) in build_all(&config(256), &msgs) {
        assert_eq!(segs[1], vec![Segment::Literal(u.as_bytes().to_vec())], "{name}");
        assert_eq!(rendered, bytes_of(&msgs), "{name}");
    }
    let tail_t = format!("{t}{t}");
    let tail_u = format!("{t}{u}");
    let msgs = [tail_t.as_str(), tail_u.as_str()];
    for (name, segs, rendered) in build_all(&config(64), &msgs) {
        assert_eq!(rendered, bytes_of(&msgs), "{name}");
        check_invariants(&msgs, &segs, 64);
    }
}
