use cache_rs::store_flat::{store_line, store_header, load_file, history_samples, day_path, all_days, Date,
    history_days, needs_rollover, safe_catname, catname_of_file, snapshot_text};
use cache_rs::entry::Entry;
use cache_rs::server::{StorePath, datagram_ranges};

#[test]
fn store_lines() {
    assert_eq!(store_line("k", &Entry::new(1_700_000_000_000_000, 0, "v")), "k\t1700000000\t+\tv\n");
    assert_eq!(store_line("k", &Entry::new(1_500_000, 2, "v")), "k\t1.5\t-\tv\n");
    assert_eq!(store_line("k", &Entry::new(1_000_000, 0, "v").expired()), "k\t1\t-\t-\n");
    assert_eq!(store_header(), "# NICOS cache store file v2\n");
}

#[test]
fn write_and_read_back() {
    let mut text = store_header();
    text.push_str(&store_line("a", &Entry::new(1_000_000, 0, "one")));
    text.push_str(&store_line("b", &Entry::new(2_000_000, 5_000_000, "two")));
    text.push_str(&store_line("c", &Entry::new(3_000_000, 0, "three")));
    text.push_str(&store_line("c", &Entry::new(4_000_000, 0, "three").expired()));
    text.push_str("broken line\n");
    let slots = load_file(&text);
    assert_eq!(slots.len(), 3);
    let a = slots.iter().find(|s| s.key == "a").unwrap();
    assert_eq!(a.val.time, 1_000_000);
    assert_eq!(a.val.ttl, 0);
    assert_eq!(a.val.value, "one");
    assert!(!a.val.expired);
    let b = slots.iter().find(|s| s.key == "b").unwrap();
    assert!(b.val.expired);
    assert_eq!(b.val.value, "two");
    let c = slots.iter().find(|s| s.key == "c").unwrap();
    assert!(c.val.expired);
    assert_eq!(c.val.time, 3_000_000);
}

#[test]
fn history_of_a_file() {
    let mut text = store_header();
    text.push_str(&store_line("a", &Entry::new(1_000_000, 0, "1")));
    text.push_str(&store_line("b", &Entry::new(2_000_000, 0, "x")));
    text.push_str(&store_line("a", &Entry::new(3_000_000, 0, "3")));
    text.push_str(&store_line("a", &Entry::new(4_000_000, 0, "4").expired()));
    text.push_str(&store_line("a", &Entry::new(9_000_000, 0, "9")));
    let h = history_samples(&text, "a", 1_000_000, 4_000_000);
    assert_eq!(h, vec![(1_000_000, "1".to_string()), (3_000_000, "3".to_string()), (4_000_000, "".to_string())]);
}

#[test]
fn day_paths() {
    assert_eq!(day_path(&Date { year: 2024, month: 3, day: 7 }), "2024/03-07");
    let days = all_days(0, 2 * 86_400_000_000 + 1);
    assert_eq!(days, vec!["1970/01-01".to_string(), "1970/01-02".to_string(), "1970/01-03".to_string()]);
    assert_eq!(all_days(100, 100), vec!["1970/01-01".to_string()]);
    // from noon of the first day to six in the morning of the third
    let day = 86_400_000_000i64;
    let days = all_days(day / 2, 2 * day + day / 4);
    assert_eq!(days, vec!["1970/01-01".to_string(), "1970/01-02".to_string(), "1970/01-03".to_string()]);
    assert_eq!(all_days(-day / 2, 1), vec!["1969/12-31".to_string(), "1970/01-01".to_string()]);
    assert!(all_days(day, day / 2).is_empty());
    assert_eq!(history_days(5, 10, 0, &"2024/03-07".to_string()), vec!["2024/03-07".to_string()]);
    assert_eq!(history_days(0, 10, 5, &"x".to_string()), vec!["1970/01-01".to_string()]);
    assert!(needs_rollover(10, 10));
    assert!(!needs_rollover(9, 10));
}

#[test]
fn category_file_names() {
    assert_eq!(safe_catname("a/b/c"), "a-b-c");
    assert_eq!(catname_of_file("a-b-c"), "a/b/c");
}

#[test]
fn snapshot_skips_expired() {
    let entries = vec![
        ("a".to_string(), Entry::new(1_000_000, 0, "1")),
        ("b".to_string(), Entry::new(2_000_000, 0, "2").expired()),
    ];
    assert_eq!(snapshot_text(&entries), "a\t1\t+\t1\n");
}

#[test]
fn store_paths() {
    assert!(matches!(StorePath::parse("data"), Ok(StorePath::Fs(p)) if p == "data"));
    assert!(matches!(StorePath::parse("postgresql://host/db"), Ok(StorePath::Uri(_))));
    assert!(matches!(StorePath::parse("mysql://host/db"), Err(e) if e == "the given URI scheme is not supported"));
}

#[test]
fn datagrams() {
    assert_eq!(datagram_ranges(0), vec![]);
    assert_eq!(datagram_ranges(10), vec![(0, 10)]);
    assert_eq!(datagram_ranges(1496), vec![(0, 1496)]);
    assert_eq!(datagram_ranges(3000), vec![(0, 1496), (1496, 2992), (2992, 3000)]);
}
