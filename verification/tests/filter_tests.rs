use subfilter::{parse, Config, ContextConfig, Entry, FilterError, Record};

fn rec(start_ms: i64, end_ms: i64, line: &str) -> Record {
    Record { start_ms, end_ms, line: Some(line.to_string()) }
}

fn lines_of(entries: &[Entry]) -> Vec<String> {
    entries.iter().map(|e| e.line.clone()).collect()
}

fn ten(n: usize) -> Vec<Record> {
    // entries "e0" .. "e{n-1}", one second long, one per second
    (0..n)
        .map(|i| rec(i as i64 * 1000, i as i64 * 1000 + 900, &format!("e{}", i)))
        .collect()
}

fn lines_config(before: u32, after: u32, pattern: Option<&str>) -> Config {
    Config {
        context: ContextConfig::Lines { before_context: before, after_context: after },
        pattern: pattern.map(|p| p.to_string()),
        pre_replace: None,
        post_replace: None,
    }
}

fn durations_config(before_ms: i64, after_ms: i64, pattern: Option<&str>) -> Config {
    Config {
        context: ContextConfig::Durations {
            before_duration: before_ms,
            after_duration: after_ms,
        },
        pattern: pattern.map(|p| p.to_string()),
        pre_replace: None,
        post_replace: None,
    }
}

#[test]
fn entry_count_window_around_single_match() {
    // single match at index 3, before=2, after=1: indices 1..=4 survive
    let out = parse(ten(7), lines_config(2, 1, Some("e3"))).unwrap();
    assert_eq!(lines_of(&out), vec!["e1", "e2", "e3", "e4"]);
    let flags: Vec<bool> = out.iter().map(|e| e.is_match).collect();
    assert_eq!(flags, vec![false, false, true, false]);
}

#[test]
fn entry_count_window_clipped_at_edges() {
    // match at index 0: nothing before it exists
    let out = parse(ten(4), lines_config(2, 1, Some("e0"))).unwrap();
    assert_eq!(lines_of(&out), vec!["e0", "e1"]);
    // match at the last index: nothing after it exists
    let out = parse(ten(4), lines_config(2, 1, Some("e3"))).unwrap();
    assert_eq!(lines_of(&out), vec!["e1", "e2", "e3"]);
}

#[test]
fn entry_count_no_context_keeps_only_match() {
    let out = parse(ten(5), lines_config(0, 0, Some("e2"))).unwrap();
    assert_eq!(lines_of(&out), vec!["e2"]);
    assert!(out[0].is_match);
}

#[test]
fn duration_window_before_gap_rule() {
    // match starts at T = 10_000 with before = 2000 ms:
    // an entry ending at T - 1500 (gap 1500 < 2000) is kept,
    // an entry ending at T - 2500 (gap 2500 >= 2000) is dropped
    let records = vec![
        rec(7000, 7500, "far"),    // ends at T - 2500
        rec(8200, 8500, "near"),   // ends at T - 1500
        rec(10000, 10800, "hit"),
    ];
    let out = parse(records, durations_config(2000, 1000, Some("hit"))).unwrap();
    assert_eq!(lines_of(&out), vec!["near", "hit"]);
    assert!(!out[0].is_match);
    assert!(out[1].is_match);
}

#[test]
fn duration_window_after_rule() {
    // after = 1000 ms from the match's end at 10_800:
    // an entry starting at 11_500 is within, one at 12_500 is not
    let records = vec![
        rec(10000, 10800, "hit"),
        rec(11500, 11900, "soon"),
        rec(12500, 12900, "late"),
    ];
    let out = parse(records, durations_config(2000, 1000, Some("hit"))).unwrap();
    assert_eq!(lines_of(&out), vec!["hit", "soon"]);
}

#[test]
fn overlapping_windows_merge_without_duplicates() {
    // matches at indices 2 and 4 with before=2, after=1: the windows
    // {0,1,2,3} and {2,3,4,5} merge into one block 0..=5, nothing twice
    let out = parse(ten(8), lines_config(2, 1, Some("e2|e4"))).unwrap();
    assert_eq!(lines_of(&out), vec!["e0", "e1", "e2", "e3", "e4", "e5"]);
}

#[test]
fn pre_rewrite_emptying_drops_entry() {
    // the pre-rewrite erases "noise" lines entirely; an erased line is
    // neither matched, nor counted, nor shown as context
    let records = vec![
        rec(0, 900, "noise"),
        rec(1000, 1900, "keep me"),
        rec(2000, 2900, "target"),
    ];
    let conf = Config {
        context: ContextConfig::Lines { before_context: 1, after_context: 0 },
        pattern: Some("target".to_string()),
        pre_replace: Some(("noise".to_string(), "".to_string())),
        post_replace: None,
    };
    let out = parse(records, conf).unwrap();
    // with "noise" gone, "keep me" is the one entry before the match
    assert_eq!(lines_of(&out), vec!["keep me", "target"]);
}

#[test]
fn pre_rewrite_feeds_the_match() {
    // matching runs on the pre-rewritten text
    let records = vec![rec(0, 900, "colour")];
    let conf = Config {
        context: ContextConfig::Lines { before_context: 0, after_context: 0 },
        pattern: Some("color".to_string()),
        pre_replace: Some(("colour".to_string(), "color".to_string())),
        post_replace: None,
    };
    let out = parse(records, conf).unwrap();
    assert_eq!(lines_of(&out), vec!["color"]);
    assert!(out[0].is_match);
}

#[test]
fn no_pattern_passes_everything_unmatched() {
    let out = parse(ten(4), lines_config(0, 0, None)).unwrap();
    assert_eq!(lines_of(&out), vec!["e0", "e1", "e2", "e3"]);
    assert!(out.iter().all(|e| !e.is_match));
}

#[test]
fn trailing_buffered_context_is_dropped() {
    // entries after the last match's window are buffered as
    // before-context candidates and never emitted
    let out = parse(ten(8), lines_config(1, 0, Some("e1"))).unwrap();
    assert_eq!(lines_of(&out), vec!["e0", "e1"]);
}

#[test]
fn no_match_at_all_gives_empty_output() {
    let out = parse(ten(6), lines_config(3, 3, Some("absent"))).unwrap();
    assert!(out.is_empty());
    let out = parse(ten(6), durations_config(5000, 5000, Some("absent"))).unwrap();
    assert!(out.is_empty());
}

#[test]
fn rewrite_only_run_rewrites_every_entry() {
    let records = vec![rec(0, 900, "a cat"), rec(1000, 1900, "no dog"), rec(2000, 2900, "cathedral")];
    let conf = Config {
        context: ContextConfig::Lines { before_context: 0, after_context: 0 },
        pattern: None,
        pre_replace: None,
        post_replace: Some(("cat".to_string(), "dog".to_string())),
    };
    let out = parse(records, conf).unwrap();
    assert_eq!(lines_of(&out), vec!["a dog", "no dog", "doghedral"]);
    assert!(out.iter().all(|e| !e.is_match));
}

#[test]
fn post_rewrite_applies_to_context_and_match() {
    let conf = Config {
        context: ContextConfig::Lines { before_context: 1, after_context: 0 },
        pattern: Some("e2".to_string()),
        pre_replace: None,
        post_replace: Some(("e".to_string(), "entry-".to_string())),
    };
    let out = parse(ten(4), conf).unwrap();
    assert_eq!(lines_of(&out), vec!["entry-1", "entry-2"]);
    // the match was decided on the text before the post-rewrite
    assert!(out[1].is_match);
}

#[test]
fn post_rewrite_with_group_reference() {
    let conf = Config {
        context: ContextConfig::Lines { before_context: 0, after_context: 0 },
        pattern: None,
        pre_replace: None,
        post_replace: Some(("e(\\d)".to_string(), "[$1]".to_string())),
    };
    let out = parse(ten(2), conf).unwrap();
    assert_eq!(lines_of(&out), vec!["[0]", "[1]"]);
}

#[test]
fn records_without_text_are_skipped() {
    let records = vec![
        rec(0, 900, "e0"),
        Record { start_ms: 1000, end_ms: 1900, line: None },
        rec(2000, 2900, "e2"),
    ];
    // before=1: the skipped record takes no place in the stream, so
    // "e0" is the entry right before the match
    let out = parse(records, lines_config(1, 0, Some("e2"))).unwrap();
    assert_eq!(lines_of(&out), vec!["e0", "e2"]);
}

#[test]
fn empty_input_gives_empty_output() {
    let out = parse(Vec::new(), lines_config(2, 2, Some("x"))).unwrap();
    assert!(out.is_empty());
    let out = parse(Vec::new(), lines_config(0, 0, None)).unwrap();
    assert!(out.is_empty());
}

#[test]
fn timestamps_ride_along_unchanged() {
    let out = parse(ten(3), lines_config(0, 0, Some("e1"))).unwrap();
    assert_eq!(out.len(), 1);
    assert_eq!(out[0].start_ms, 1000);
    assert_eq!(out[0].end_ms, 1900);
}

#[test]
fn bad_pattern_is_reported() {
    let res = parse(ten(2), lines_config(0, 0, Some("(unclosed")));
    assert_eq!(res.unwrap_err(), FilterError::Pattern);
}

#[test]
fn bad_pre_replace_is_reported() {
    let conf = Config {
        context: ContextConfig::Lines { before_context: 0, after_context: 0 },
        pattern: Some("fine".to_string()),
        pre_replace: Some(("(unclosed".to_string(), "x".to_string())),
        post_replace: None,
    };
    assert_eq!(parse(ten(2), conf).unwrap_err(), FilterError::PreReplace);
}

#[test]
fn bad_post_replace_is_reported() {
    let conf = Config {
        context: ContextConfig::Lines { before_context: 0, after_context: 0 },
        pattern: Some("fine".to_string()),
        pre_replace: Some(("ok".to_string(), "x".to_string())),
        post_replace: Some(("(unclosed".to_string(), "y".to_string())),
    };
    assert_eq!(parse(ten(2), conf).unwrap_err(), FilterError::PostReplace);
}

#[test]
fn after_window_supersedes_buffered_context() {
    // e3 lies in e2's after-window, so it is emitted directly and the
    // buffer is discarded rather than kept for a later match
    let out = parse(ten(6), lines_config(1, 2, Some("e2"))).unwrap();
    assert_eq!(lines_of(&out), vec!["e1", "e2", "e3", "e4"]);
}

#[test]
fn duration_after_window_clears_buffer() {
    // "soon" is after-context of "hit"; "later" falls outside every
    // window and stays buffered forever
    let records = vec![
        rec(0, 500, "hit"),
        rec(1000, 1400, "soon"),
        rec(9000, 9400, "later"),
    ];
    let out = parse(records, durations_config(0, 1000, Some("hit"))).unwrap();
    assert_eq!(lines_of(&out), vec!["hit", "soon"]);
}

#[test]
fn duration_zero_before_keeps_only_overlap() {
    // with before = 0 only a buffered entry that is still running when
    // the match starts (strictly negative gap) is flushed
    let records = vec![
        rec(0, 900, "early"),
        rec(9500, 10500, "overlap"),
        rec(10000, 10800, "hit"),
    ];
    let out = parse(records, durations_config(0, 0, Some("hit"))).unwrap();
    assert_eq!(lines_of(&out), vec!["overlap", "hit"]);
}

#[test]
fn separate_matches_keep_separate_blocks() {
    let out = parse(ten(7), lines_config(0, 0, Some("e1|e5"))).unwrap();
    assert_eq!(lines_of(&out), vec!["e1", "e5"]);
}
