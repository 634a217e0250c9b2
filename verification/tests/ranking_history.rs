use gam::history::{parse_plain_history, parse_zsh_history, HistoryCache, HistoryEntry, FREQ_UNIT};
use gam::ranking::{
    length_factor_fp, score_half, time_mult_q, RankingService, MULT_DAY_Q, MULT_HOUR_Q, MULT_OLD_Q,
    MULT_WEEK_Q,
};
use gam::aliases::GitAlias;

fn alias(name: &str, command: &str, scope: &str) -> GitAlias {
    GitAlias {
        name: name.to_string(),
        command: command.to_string(),
        scope: scope.to_string(),
        local_path: None,
        score: None,
    }
}

#[test]
fn new_service_has_empty_cache() {
    let svc = RankingService::new();
    assert!(svc.history_cache.is_empty());
    assert!(svc.last_fetch_time.is_none());
}

#[test]
fn scores_empty_aliases() {
    let mut svc = RankingService::new();
    let aliases: Vec<GitAlias> = vec![];
    let scores = svc.get_scores(&aliases, 1_000_000);
    assert!(scores.is_empty());
}

#[test]
fn scores_alias_with_no_history() {
    let mut svc = RankingService::new();
    let aliases = vec![alias("co", "checkout", "global")];
    let scores = svc.get_scores(&aliases, 1_000_000);
    assert_eq!(scores.get("co").unwrap() as f64 / 2.0, 0.0);
}

#[test]
fn parse_zsh_history_extracts_timestamps() {
    let content = ": 1700000000:0;git checkout main\n: 1700000100:0;git status\n";
    let mut cache = HistoryCache::new();
    parse_zsh_history(content, &mut cache);

    let co = cache.get("git checkout").unwrap();
    assert_eq!(co.frequency_units as f64 / FREQ_UNIT as f64, 1.0);
    assert_eq!(co.last_seen, 1700000000);

    let st = cache.get("git status").unwrap();
    assert_eq!(st.frequency_units as f64 / FREQ_UNIT as f64, 1.0);
    assert_eq!(st.last_seen, 1700000100);
}

#[test]
fn parse_plain_history_counts_frequency() {
    let content = "git commit -m 'test'\ngit commit --amend\nls -la\ngit status\n";
    let mut cache = HistoryCache::new();
    parse_plain_history(content, &mut cache);

    assert_eq!(cache.get("git commit").unwrap().frequency_units as f64 / 20.0, 2.0);
    assert_eq!(cache.get("git status").unwrap().frequency_units as f64 / 20.0, 1.0);
    assert!(cache.get("git ls").is_none());
}

#[test]
fn time_multipliers_are_correct() {
    assert_eq!(MULT_HOUR_Q as f64 / 4.0, 4.0);
    assert_eq!(MULT_DAY_Q as f64 / 4.0, 2.0);
    assert_eq!(MULT_WEEK_Q as f64 / 4.0, 0.5);
    assert_eq!(MULT_OLD_Q as f64 / 4.0, 0.25);
}

#[test]
fn recency_bands_on_concrete_offsets() {
    let now: u64 = 2_000_000;
    assert_eq!(time_mult_q(now, now - 1800), MULT_HOUR_Q);
    assert_eq!(time_mult_q(now, now - 80000), MULT_DAY_Q);
    assert_eq!(time_mult_q(now, now - 500000), MULT_WEEK_Q);
    assert_eq!(time_mult_q(now, now - 1000000), MULT_OLD_Q);
    // 90000 seconds is already past the one-day band
    assert_eq!(time_mult_q(now, now - 90000), MULT_WEEK_Q);
    // an unknown moment of use lands in the oldest band
    assert_eq!(time_mult_q(now, 0), MULT_OLD_Q);
}

#[test]
fn doubling_frequency_doubles_score_below_ceiling() {
    let lf = length_factor_fp(1);
    assert_eq!(lf, 1024);
    let once = score_half(16, lf, 20);
    let twice = score_half(16, lf, 40);
    assert_eq!(once as f64 / 2.0, 4.0);
    assert_eq!(twice as f64 / 2.0, 8.0);
    assert_eq!(twice, 2 * once);
}

#[test]
fn length_factor_matches_fifth_root() {
    // floor(1024 * 100^(3/5)) = floor(1024 * 15.8489...) = 16229
    assert_eq!(length_factor_fp(100), 16229);
    assert_eq!(length_factor_fp(0), 0);
    assert_eq!(length_factor_fp(32), 1024 * 8);
}

#[test]
fn ceiling_halves_scores_and_cache() {
    let freq: u64 = 400000 * FREQ_UNIT;
    let cache = HistoryCache {
        entries: vec![(
            "git st".to_string(),
            HistoryEntry { frequency_units: freq, last_seen: 0 },
        )],
    };
    let mut svc = RankingService { history_cache: cache, last_fetch_time: None };
    let command = "status -sb --long --find-renames --ignore-submodules=dirty extra";
    let aliases = vec![alias("st", command, "global")];

    let uncapped = score_half(
        MULT_OLD_Q,
        length_factor_fp(command.chars().count()),
        freq,
    );
    assert!(uncapped > 140000, "the single score must cross the ceiling");

    let scores = svc.get_scores(&aliases, 1_000_000);
    assert_eq!(scores.get("st").unwrap(), uncapped / 2);
    let entry = svc.history_cache.get("git st").unwrap();
    assert_eq!(entry.frequency_units, freq / 2);

    // the next call sees the halved frequency (and, still far above the
    // ceiling, halves once more)
    let scores2 = svc.get_scores(&aliases, 1_000_000);
    let rescored = score_half(
        MULT_OLD_Q,
        length_factor_fp(command.chars().count()),
        freq / 2,
    );
    assert!(rescored > 140000);
    assert_eq!(scores2.get("st").unwrap(), rescored / 2);
    assert_eq!(svc.history_cache.get("git st").unwrap().frequency_units, freq / 4);
}

#[test]
fn fallback_uses_first_command_token_at_one_fifth() {
    let cache = HistoryCache {
        entries: vec![(
            "git checkout".to_string(),
            HistoryEntry { frequency_units: 100 * FREQ_UNIT, last_seen: 0 },
        )],
    };
    let mut svc = RankingService { history_cache: cache, last_fetch_time: None };
    // a leading no-break space is stripped before the first token is taken,
    // as split_whitespace strips it
    let aliases = vec![alias("co", "\u{a0}checkout main", "global")];
    let scores = svc.get_scores(&aliases, 1_000_000);
    let expected = score_half(
        MULT_OLD_Q,
        length_factor_fp("\u{a0}checkout main".chars().count()),
        100 * FREQ_UNIT / 5,
    );
    assert_eq!(scores.get("co").unwrap(), expected);
}

#[test]
fn rebuild_replaces_cache_wholesale() {
    let mut svc = RankingService::new();
    svc.rebuild(Some(": 1:0;git pull\n"), Some("git push origin\n"), 50);
    assert!(svc.history_cache.get("git pull").is_some());
    assert!(svc.history_cache.get("git push").is_some());
    assert_eq!(svc.last_fetch_time, Some(50));
    assert!(!svc.needs_refresh(52));
    assert!(svc.needs_refresh(60));
    svc.rebuild(None, Some("git fetch\n"), 60);
    assert!(svc.history_cache.get("git pull").is_none());
    assert!(svc.history_cache.get("git fetch").is_some());
}

#[test]
fn zsh_line_counts_in_both_passes() {
    // a line matching both the timestamped and the bare shape counts twice
    let content = "git status\n: 99:0;git status\n";
    let mut cache = HistoryCache::new();
    parse_zsh_history(content, &mut cache);
    let e = cache.get("git status").unwrap();
    assert_eq!(e.frequency_units, 2 * FREQ_UNIT);
    assert_eq!(e.last_seen, 99);
}

#[test]
fn empty_cache_always_counts_as_stale() {
    let mut svc = RankingService::new();
    svc.last_fetch_time = Some(100);
    assert!(svc.needs_refresh(101), "an empty cache forces a rebuild even when fresh");
    svc.rebuild(None, Some("git log\n"), 101);
    assert!(!svc.needs_refresh(103));
}
