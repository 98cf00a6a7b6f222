use zoxide::add::{Add, AddError};
use zoxide::codec::{DecodeError, STORE_VERSION};
use zoxide::config::{flag_enabled, parse_max_total, parse_u64, Config, ConfigError};
use zoxide::frecency::{score, DAY, HOUR};
use zoxide::lock::{next_lock_action, LockAction, LockEvent};
use zoxide::matcher::path_matches;
use zoxide::store::{Entry, Store, StoreFull, PRUNE_BELOW, RENORM_TARGET, WEIGHT_LIMIT, WEIGHT_PER_RANK};

fn rank_of(s: &Store, path: &str) -> Option<u64> {
    s.entries.iter().find(|e| e.path == path).map(|e| e.weight)
}

fn entry(path: &str, weight: u64, last_accessed: u64) -> Entry {
    Entry { path: path.to_string(), weight, last_accessed }
}

fn same_entries(a: &Store, b: &Store) -> bool {
    a.scale_num == b.scale_num
        && a.scale_den == b.scale_den
        && a.entries.len() == b.entries.len()
        && a.entries.iter().zip(b.entries.iter()).all(|(x, y)| {
            x.path == y.path && x.weight == y.weight && x.last_accessed == y.last_accessed
        })
}

fn round_trip(n: usize) {
    let mut s = Store::new();
    for i in 0..n {
        s.entries.push(entry(&format!("/home/user/dir{}/ünï", i), (i as u64) * 7919 + 1, 1_600_000_000 + i as u64));
    }
    let bytes = s.encode();
    let back = Store::decode(&bytes).unwrap();
    assert!(same_entries(&s, &back));
    s.age(10);
    let aged = Store::decode(&s.encode()).unwrap();
    assert!(same_entries(&s, &aged));
}

#[test]
fn round_trip_empty() {
    round_trip(0);
}

#[test]
fn round_trip_one() {
    round_trip(1);
}

#[test]
fn round_trip_thousand() {
    round_trip(1000);
}

#[test]
fn encoding_layout() {
    let mut s = Store::new();
    s.add("/a".to_string(), 5, 1).unwrap();
    let b = s.encode();
    let mut expected = Vec::new();
    expected.extend_from_slice(&STORE_VERSION.to_le_bytes());
    expected.extend_from_slice(&1u64.to_le_bytes());
    expected.extend_from_slice(&1000u64.to_le_bytes());
    expected.extend_from_slice(&1u64.to_le_bytes());
    expected.extend_from_slice(&2u64.to_le_bytes());
    expected.extend_from_slice(b"/a");
    expected.extend_from_slice(&1000u64.to_le_bytes());
    expected.extend_from_slice(&5u64.to_le_bytes());
    assert_eq!(b, expected);
}

#[test]
fn decode_rejects_other_version() {
    let mut b = Store::new().encode();
    b[0] = 9;
    assert!(matches!(Store::decode(&b), Err(DecodeError::UnsupportedVersion)));
}

#[test]
fn decode_rejects_truncated_and_trailing_bytes() {
    let mut s = Store::new();
    s.add("/a".to_string(), 5, 1).unwrap();
    let b = s.encode();
    assert!(matches!(Store::decode(&b[..b.len() - 1]), Err(DecodeError::Corrupt)));
    let mut longer = b.clone();
    longer.push(0);
    assert!(matches!(Store::decode(&longer), Err(DecodeError::Corrupt)));
    assert!(matches!(Store::decode(&[]), Err(DecodeError::Corrupt)));
}

#[test]
fn decode_rejects_duplicate_paths() {
    let mut s = Store::new();
    s.entries.push(entry("/a", 1000, 1));
    s.entries.push(entry("/a", 2000, 2));
    let b = s.encode();
    assert!(matches!(Store::decode(&b), Err(DecodeError::Corrupt)));
}

#[test]
fn decode_rejects_zero_scale_and_overflowing_weights() {
    let mut s = Store::new();
    s.add("/a".to_string(), 5, 1).unwrap();
    s.scale_num = 0;
    assert!(matches!(Store::decode(&s.encode()), Err(DecodeError::Corrupt)));
    let mut s = Store::new();
    s.entries.push(entry("/a", u64::MAX, 1));
    s.entries.push(entry("/b", 1, 1));
    assert!(matches!(Store::decode(&s.encode()), Err(DecodeError::Corrupt)));
    let mut s = Store::new();
    s.entries.push(entry("/a", WEIGHT_LIMIT + 1, 1));
    assert!(matches!(Store::decode(&s.encode()), Err(DecodeError::Corrupt)));
}

#[test]
fn add_twice_raises_rank() {
    let mut s = Store::new();
    s.add("/p".to_string(), 100, 1).unwrap();
    let r1 = rank_of(&s, "/p").unwrap();
    s.add("/p".to_string(), 200, 1).unwrap();
    let r2 = rank_of(&s, "/p").unwrap();
    assert_eq!(r1, 1000);
    assert_eq!(r2, 2000);
    assert!(r2 > r1);
    // After aging the scale is no longer 1 / 1000; a visit still adds at
    // least one rank, rounded up to whole weight.
    let mut t = Store::new();
    t.entries.push(entry("/x", 5000, 1));
    t.entries.push(entry("/y", 3000, 1));
    t.age(4);
    let before = rank_of(&t, "/y").unwrap();
    t.add("/y".to_string(), 3, 1).unwrap();
    let gain = (rank_of(&t, "/y").unwrap() - before) as u128;
    assert!(gain * t.scale_num as u128 >= t.scale_den as u128);
    assert!(gain * (t.scale_num as u128) < t.scale_den as u128 + t.scale_num as u128);
    assert_eq!(s.entries[0].last_accessed, 200);
    assert_eq!(s.len(), 1);
}

#[test]
fn add_refuses_visit_that_does_not_fit() {
    let mut s = Store::new();
    s.entries.push(entry("/p", WEIGHT_LIMIT - 10, 1));
    assert_eq!(s.add("/p".to_string(), 2, 1), Err(StoreFull));
    assert_eq!(rank_of(&s, "/p"), Some(WEIGHT_LIMIT - 10));
    assert_eq!(s.entries[0].last_accessed, 1);
    let config = Config::new();
    assert_eq!(Add::record(&mut s, "/q".to_string(), 2, &config, false), Err(AddError::Full));
    assert_eq!(s.len(), 1);
}

fn renormalized(w: u64, total: u64, n: u64, lighter: u64) -> u64 {
    (w as u128 * RENORM_TARGET as u128 / total as u128) as u64 * n + lighter
}

#[test]
fn age_bounds_total() {
    let mut s = Store::new();
    s.entries.push(entry("/a", 6000, 1));
    s.entries.push(entry("/b", 3000, 1));
    s.entries.push(entry("/c", 3000, 1));
    s.age(6);
    // Ranks 6, 3 and 3 sum to 12: each is halved, and the weights are
    // renormalized to a total of about RENORM_TARGET per entry.
    let den = 3 * (RENORM_TARGET + 3);
    assert_eq!((s.scale_num, s.scale_den), (6, den));
    assert_eq!(rank_of(&s, "/a"), Some(renormalized(6000, 12000, 3, 2)));
    assert_eq!(rank_of(&s, "/b"), Some(renormalized(3000, 12000, 3, 0)));
    assert_eq!(rank_of(&s, "/c"), rank_of(&s, "/b"));
    assert_eq!(s.len(), 3);
    assert!(s.total() * s.scale_num as u128 <= 6 * s.scale_den as u128);
    // About 3.0 for /a.
    let a = rank_of(&s, "/a").unwrap() as f64 * 6.0 / den as f64;
    assert!((a - 3.0).abs() < 1e-6);
}

#[test]
fn age_is_noop_under_bound() {
    let mut s = Store::new();
    s.entries.push(entry("/a", 500, 1));
    s.entries.push(entry("/b", 3000, 1));
    s.age(10);
    assert_eq!(rank_of(&s, "/a"), Some(500));
    assert_eq!((s.scale_num, s.scale_den), (1, WEIGHT_PER_RANK));
    assert_eq!(s.len(), 2);
}

#[test]
fn age_keeps_order() {
    let mut s = Store::new();
    s.entries.push(entry("/a", 9000, 1));
    s.entries.push(entry("/b", 5000, 1));
    s.entries.push(entry("/c", 4000, 1));
    s.age(9);
    let a = rank_of(&s, "/a").unwrap();
    let b = rank_of(&s, "/b").unwrap();
    let c = rank_of(&s, "/c").unwrap();
    assert!(a > b && b > c);
}

#[test]
fn age_keeps_close_ranks_apart() {
    // Ranks 2.003, 2.002 and 2.995; a visit of /c, then aging to 4.
    let mut s = Store::new();
    s.entries.push(entry("/a", 2003, 1));
    s.entries.push(entry("/b", 2002, 1));
    s.entries.push(entry("/c", 2995, 1));
    let config = Config { max_total: 4, increment: 1 };
    Add::record(&mut s, "/c".to_string(), 2, &config, false).unwrap();
    assert_eq!((s.scale_num, s.scale_den), (4, 3 * (RENORM_TARGET + 3)));
    let a = rank_of(&s, "/a").unwrap();
    let b = rank_of(&s, "/b").unwrap();
    assert!(a > b);
    assert_eq!(a, renormalized(2003, 8000, 3, 1));
    assert_eq!(b, renormalized(2002, 8000, 3, 0));
}

#[test]
fn age_prunes_small_ranks() {
    let mut s = Store::new();
    s.entries.push(entry("/big", 20000, 1));
    s.entries.push(entry("/small", 1500, 1));
    s.age(10);
    // Rank 1.5 scaled by 10 / 21.5 is about 0.70, below the threshold.
    assert_eq!(rank_of(&s, "/small"), None);
    assert_eq!(rank_of(&s, "/big"), Some(renormalized(20000, 21500, 2, 1)));
    assert_eq!((s.scale_num, s.scale_den), (10, 2 * (RENORM_TARGET + 2)));
    assert!(s
        .entries
        .iter()
        .all(|e| e.weight as u128 * s.scale_num as u128 >= PRUNE_BELOW as u128 * s.scale_den as u128));
}

#[test]
fn remove_is_idempotent() {
    let mut s = Store::new();
    s.add("/a".to_string(), 1, 1).unwrap();
    s.add("/b".to_string(), 1, 1).unwrap();
    s.remove(&"/a".to_string());
    assert_eq!(rank_of(&s, "/a"), None);
    s.remove(&"/a".to_string());
    assert_eq!(s.len(), 1);
    assert_eq!(s.entries[0].path, "/b");
}

#[test]
fn sequential_invocations_lose_no_update() {
    let first = {
        let mut s = Store::decode(&Store::new().encode()).unwrap();
        Add::record(&mut s, "/p".to_string(), 10, &Config::new(), false).unwrap();
        s.encode()
    };
    let second = {
        let mut s = Store::decode(&first).unwrap();
        Add::record(&mut s, "/p".to_string(), 20, &Config::new(), false).unwrap();
        s.encode()
    };
    let s = Store::decode(&second).unwrap();
    assert_eq!(rank_of(&s, "/p"), Some(2 * WEIGHT_PER_RANK));
    assert_eq!(s.entries[0].last_accessed, 20);
}

#[test]
fn record_skips_excluded_path() {
    let mut s = Store::new();
    assert_eq!(Add::record(&mut s, "/p".to_string(), 10, &Config::new(), true), Ok(()));
    assert_eq!(s.len(), 0);
}

#[test]
fn record_visit_adds_then_ages() {
    let mut s = Store::new();
    s.entries.push(entry("/a", 3000, 1));
    let config = Config { max_total: 2, increment: 1 };
    let r: Result<(), AddError> = Add::record(&mut s, "/b".to_string(), 7, &config, false);
    assert_eq!(r, Ok(()));
    // Ranks 3 and 1 scaled by 2 / 4: /a keeps 1.5, /b falls to 0.5 and is dropped.
    assert_eq!((s.scale_num, s.scale_den), (2, 2 * (RENORM_TARGET + 2)));
    assert_eq!(rank_of(&s, "/a"), Some(renormalized(3000, 4000, 2, 1)));
    assert_eq!(rank_of(&s, "/b"), None);
}

#[test]
fn frecency_examples() {
    let rank = 2 * WEIGHT_PER_RANK;
    let now = 1_000_000;
    let quarter = 4 * WEIGHT_PER_RANK as u128;
    assert_eq!(score(rank, now - 30 * 60, now), 8 * quarter);
    assert_eq!(score(rank, now - 2 * DAY, now), quarter);
    assert_eq!(score(rank, now - 10 * DAY, now), quarter / 2);
    assert_eq!(score(rank, now - 5 * HOUR, now), 4 * quarter);
    assert_eq!(score(rank, now + 5, now), 8 * quarter);
}

#[test]
fn keyword_matching_examples() {
    let kw = |v: &[&str]| v.iter().map(|s| s.to_string()).collect::<Vec<String>>();
    let a = "/home/user/projects/zoxide";
    let b = "/home/user/zoxide-docs";
    assert!(path_matches(a, &kw(&["zox"])));
    assert!(path_matches(b, &kw(&["zox"])));
    assert!(path_matches(a, &kw(&["proj", "zox"])));
    assert!(!path_matches(b, &kw(&["proj", "zox"])));
    assert!(path_matches(a, &kw(&["PROJ", "Zox"])));
    assert!(!path_matches(a, &kw(&["zox", "proj"])));
    assert!(!path_matches("/abab", &kw(&["aba", "ab"])));
    assert!(path_matches("/anything", &kw(&[])));
}

#[test]
fn query_ranks_by_score() {
    let mut s = Store::new();
    let now = 1_000_000;
    s.entries.push(entry("/home/user/projects/zoxide", 10 * WEIGHT_PER_RANK, now - 10 * DAY));
    s.entries.push(entry("/home/user/zoxide-docs", WEIGHT_PER_RANK, now - 60));
    s.entries.push(entry("/home/user/other", 50 * WEIGHT_PER_RANK, now));
    s.entries.push(entry("/tmp/zoxide", WEIGHT_PER_RANK, now - 120));
    let kws = vec!["zox".to_string()];
    let r = s.query(&kws, now);
    let order: Vec<usize> = r.iter().map(|m| m.index).collect();
    // Equal scores keep the store's order.
    assert_eq!(order, vec![1, 3, 0]);
    assert_eq!(r[0].score, 16 * WEIGHT_PER_RANK as u128);
    assert_eq!(r[1].score, 16 * WEIGHT_PER_RANK as u128);
    assert_eq!(r[2].score, 10 * WEIGHT_PER_RANK as u128);
    let best = s.best_match(&kws, now).unwrap();
    assert_eq!(best.index, 1);
    assert!(s.best_match(&vec!["nothing".to_string()], now).is_none());
}

#[test]
fn config_parsing() {
    assert!(flag_enabled(Some("1")));
    assert!(!flag_enabled(Some("0")));
    assert!(!flag_enabled(Some("11")));
    assert!(!flag_enabled(None));
    assert_eq!(parse_u64("+42"), Some(42));
    assert_eq!(parse_u64("18446744073709551615"), Some(u64::MAX));
    assert_eq!(parse_u64("18446744073709551616"), None);
    assert_eq!(parse_u64("+"), None);
    assert_eq!(parse_u64("4x"), None);
    assert_eq!(parse_max_total(None), Ok(10000));
    assert_eq!(parse_max_total(Some("500")), Ok(500));
    assert_eq!(parse_max_total(Some("abc")), Err(ConfigError::InvalidMaxAge));
    assert_eq!(parse_max_total(Some("18446744073709551615")), Ok(u64::MAX));
}

#[test]
fn lock_retry_decisions() {
    assert_eq!(next_lock_action(1, 3, LockEvent::Acquired), LockAction::Proceed);
    assert_eq!(next_lock_action(1, 3, LockEvent::Busy), LockAction::Retry);
    assert_eq!(next_lock_action(3, 3, LockEvent::Busy), LockAction::TimedOut);
}
