use findex_cache::cache::{FileCache, FileItemScoreCache, FilePageCache};
use findex_cache::error::CacheError;
use findex_cache::item::{decode_items, encode_items, CacheItem};
use findex_cache::query::{query_snapshot, rank, split_keywords};
use findex_cache::scores::{
    compact_content, encode_scores, fold_events_exec, load_scores_from, parse_access_log,
    sort_scores_desc, AccessEvent, ItemScore,
};

fn item(id: &str, title: &str, tags: &[&str], updated_at: Option<i64>) -> CacheItem {
    CacheItem {
        id: id.to_string(),
        title: title.to_string(),
        tags: tags.iter().map(|t| t.to_string()).collect(),
        updated_at,
    }
}

fn score(id: &str, score: u64, last: u64) -> ItemScore {
    ItemScore {
        score,
        last_accessed_time: last,
        id: id.to_string(),
    }
}

#[test]
fn snapshot_round_trip_reconstructs_items() {
    let items = vec![
        item("a-1", "Rust Notes", &["lang", "notes"], Some(1700000000)),
        item("b:2", "weird|chars\nhere:", &["", "x y"], None),
        item("", "", &[], Some(-5)),
        item("unicode", "caf\u{e9} \u{1F4DD}", &["caf\u{e9}"], Some(i64::MIN)),
        item("max", "t", &["u"], Some(i64::MAX)),
    ];
    let text = encode_items(&items);
    let back = decode_items(&text).expect("a written snapshot reads back");
    assert_eq!(items, back);
}

#[test]
fn score_snapshot_round_trip() {
    let scores = vec![score("42", 2, 2000), score("7", 1, 1500), score("", u64::MAX, 0)];
    let text = encode_scores(&scores);
    let back = findex_cache::scores::decode_scores(&text).expect("score snapshot reads back");
    assert_eq!(scores, back);
}

#[test]
fn decode_rejects_malformed_snapshots() {
    assert_eq!(decode_items(""), Err(CacheError::SerializationError));
    assert_eq!(decode_items("not a snapshot"), Err(CacheError::SerializationError));
    assert_eq!(decode_items("2:1:a1:b0:n:"), Err(CacheError::SerializationError));
    // trailing garbage is a structural mismatch, not ignored
    let mut text = encode_items(&vec![item("a", "t", &[], None)]);
    text.push('x');
    assert_eq!(decode_items(&text), Err(CacheError::SerializationError));
    // the empty snapshot is fine
    assert_eq!(decode_items(&encode_items(&vec![])), Ok(vec![]));
}

#[test]
fn compaction_is_idempotent_after_truncation() {
    // first run: fold the log and write
    let first = compact_content(None, Some("42|1000".to_string())).expect("a log to fold");
    // the log was truncated; the next run sees no log and rewrites nothing
    assert_eq!(compact_content(Some(first.clone()), None), None);
    // even a log file that is present but empty leaves the snapshot unchanged
    assert_eq!(compact_content(Some(first.clone()), Some(String::new())), Some(first));
}

#[test]
fn score_accumulation_from_log_lines() {
    let log = "42|1000\n42|2000\n7|1500".to_string();
    let written = compact_content(None, Some(log)).expect("events were folded");
    let cache = FileItemScoreCache::new("scores");
    let loaded = cache.load_item_scores(Some(written));
    assert_eq!(loaded.len(), 2);
    // descending last-accessed order when loaded
    assert_eq!(loaded[0].id, "42");
    assert_eq!(loaded[0].score, 2);
    assert_eq!(loaded[0].last_accessed_time, 2000);
    assert_eq!(loaded[1].id, "7");
    assert_eq!(loaded[1].score, 1);
    assert_eq!(loaded[1].last_accessed_time, 1500);
}

#[test]
fn malformed_log_lines_are_skipped() {
    let events = parse_access_log("42|1000\nnot a line\n|\n7|abc\n8|  2500  |extra|fields\n");
    assert_eq!(events.len(), 2);
    assert_eq!(events[0].id, "42");
    assert_eq!(events[0].access_time, 1000);
    assert_eq!(events[1].id, "8");
    assert_eq!(events[1].access_time, 2500);
}

#[test]
fn later_events_win_the_timestamp_even_when_older() {
    let scores = fold_events_exec(
        vec![],
        vec![
            AccessEvent::new("a".to_string(), 5000),
            AccessEvent::new("a".to_string(), 100),
        ],
    );
    assert_eq!(scores.len(), 1);
    assert_eq!(scores[0].score, 2);
    assert_eq!(scores[0].last_accessed_time, 100);
}

#[test]
fn filter_is_a_conjunction_of_keywords() {
    let items = vec![
        item("1", "Rust Notes", &["lang"], None),
        item("2", "Go Notes", &["lang", "fast"], None),
    ];
    let got = rank(items, &vec![], "notes #fast", 7, 15);
    assert_eq!(got.len(), 1);
    assert_eq!(got[0].id, "2");
    assert_eq!(got[0].title, "Go Notes");
}

#[test]
fn keyword_order_does_not_change_the_survivors() {
    let items = || {
        vec![
            item("1", "Rust Notes", &["lang"], Some(3)),
            item("2", "Go Notes", &["lang", "fast"], Some(2)),
            item("3", "Fast Times", &["film"], Some(1)),
        ]
    };
    let a = rank(items(), &vec![], "notes #fast", 7, 15);
    let b = rank(items(), &vec![], "#fast notes", 7, 15);
    assert_eq!(a, b);
}

#[test]
fn matching_is_case_insensitive() {
    let items = vec![item("1", "Rust Notes", &["Lang"], None)];
    let got = rank(items, &vec![], "rUsT #lAnG", 7, 15);
    assert_eq!(got.len(), 1);
}

#[test]
fn promotion_moves_recently_used_items_to_the_front() {
    let items = vec![
        item("A", "alpha", &[], Some(30)),
        item("B", "beta", &[], Some(20)),
        item("C", "gamma", &[], Some(10)),
    ];
    // recency order of the score snapshot: C then A
    let scores = vec![score("C", 1, 900), score("A", 5, 800)];
    let got = rank(items, &scores, "", 7, 15);
    let ids: Vec<&str> = got.iter().map(|i| i.id.as_str()).collect();
    assert_eq!(ids, vec!["C", "A", "B"]);
}

#[test]
fn results_are_bounded_to_the_configured_count() {
    let mut items = Vec::new();
    for i in 0..30i64 {
        items.push(item(&format!("id{}", i), "match me", &[], Some(1000 - i)));
    }
    let got = rank(items, &vec![], "match", 7, 15);
    assert_eq!(got.len(), 15);
    // the first fifteen per the merge order: most recent first
    for (k, it) in got.iter().enumerate() {
        assert_eq!(it.id, format!("id{}", k));
    }
}

#[test]
fn missing_snapshot_degrades_to_an_empty_result() {
    let got = query_snapshot(Err(CacheError::IoError), &vec![], "anything", 7, 15);
    assert_eq!(got.len(), 0);
    let got = query_snapshot(Err(CacheError::SerializationError), &vec![], "", 7, 15);
    assert_eq!(got.len(), 0);
}

#[test]
fn dangling_score_ids_are_skipped() {
    let items = vec![item("A", "alpha", &[], Some(2)), item("B", "beta", &[], Some(1))];
    let with_dangling = vec![score("ghost", 9, 999), score("B", 1, 500)];
    let without = vec![score("B", 1, 500)];
    let a = rank(items.clone(), &with_dangling, "", 7, 15);
    let b = rank(items, &without, "", 7, 15);
    assert_eq!(a, b);
    let ids: Vec<&str> = a.iter().map(|i| i.id.as_str()).collect();
    assert_eq!(ids, vec!["B", "A"]);
}

#[test]
fn loading_sorts_by_last_use_and_tolerates_corruption() {
    let scores = vec![score("x", 1, 10), score("y", 9, 30), score("z", 4, 20)];
    let sorted = sort_scores_desc(scores);
    let lasts: Vec<u64> = sorted.iter().map(|s| s.last_accessed_time).collect();
    assert_eq!(lasts, vec![30, 20, 10]);
    // corrupt content is a cold start, not an error
    assert_eq!(load_scores_from(Some("garbage".to_string())).len(), 0);
    assert_eq!(load_scores_from(None).len(), 0);
}

#[test]
fn file_caches_render_and_parse() {
    let cache = FileCache::new("items.snapshot");
    assert_eq!(cache.file_name, "items.snapshot");
    let items = vec![item("i", "t", &["g"], Some(7))];
    let text = cache.render(&items);
    assert_eq!(cache.parse(Ok(text)), Ok(items));
    assert_eq!(cache.parse(Err(CacheError::IoError)), Err(CacheError::IoError));
    assert_eq!(
        cache.parse(Ok("bogus".to_string())),
        Err(CacheError::SerializationError)
    );
    let pages = FilePageCache::new("pages.snapshot");
    assert_eq!(pages.file_name, "pages.snapshot");
}

#[test]
fn keywords_split_on_whitespace_and_drop_empties() {
    let kws = split_keywords("  rust \t #lang \n ");
    assert_eq!(kws, vec!["rust".to_string(), "#lang".to_string()]);
    assert_eq!(split_keywords("").len(), 0);
    assert_eq!(split_keywords("   ").len(), 0);
}

#[test]
fn error_messages_name_the_failure() {
    assert_eq!(CacheError::IoError.message(), "I/O error");
    assert_eq!(CacheError::SerializationError.message(), "Serialization error");
}

#[test]
fn the_encoding_is_the_documented_text_format() {
    // one record: count, then id as a length-prefixed string, then the two
    // counters, every numeral closed by a colon
    let text = encode_scores(&vec![score("a", 1, 2)]);
    assert_eq!(text, "1:1:a1:2:");
    let text = encode_items(&vec![item("ab", "t", &["x"], Some(-3))]);
    assert_eq!(text, "1:2:ab1:t1:1:xy:-3:");
    let text = encode_items(&vec![item("", "", &[], None)]);
    assert_eq!(text, "1:0:0:0:n:");
}

#[test]
fn log_times_at_the_limits_of_u64() {
    let events = parse_access_log("a|18446744073709551615\nb|18446744073709551616");
    assert_eq!(events.len(), 1);
    assert_eq!(events[0].access_time, u64::MAX);
}
