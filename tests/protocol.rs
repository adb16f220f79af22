use cache_rs::message::CacheMsg;
use cache_rs::entry::{split_key, construct_key, Entry};

const NOW: i64 = 1_650_000_000_000_000;

fn parse(line: &str) -> Option<CacheMsg> {
    CacheMsg::parse(line, NOW)
}

#[test]
fn parse_plain_tell() {
    match parse("x=1") {
        Some(CacheMsg::Tell { key, val, no_store }) => {
            assert_eq!(key, "x");
            assert_eq!(val, "1");
            assert!(!no_store);
        }
        other => panic!("unexpected {:?}", other),
    }
}

#[test]
fn parse_timestamped_tell() {
    match parse("1700000000+60@y=42") {
        Some(CacheMsg::TellTS { key, val, time, ttl, no_store }) => {
            assert_eq!(key, "y");
            assert_eq!(val, "42");
            assert_eq!(time, 1_700_000_000_000_000);
            assert_eq!(ttl, 60_000_000);
            assert!(!no_store);
        }
        other => panic!("unexpected {:?}", other),
    }
}

#[test]
fn parse_absolute_expiry() {
    match parse("100-150@k=v") {
        Some(CacheMsg::TellTS { time, ttl, .. }) => {
            assert_eq!(time, 100_000_000);
            assert_eq!(ttl, 50_000_000);
        }
        other => panic!("unexpected {:?}", other),
    }
}

#[test]
fn parse_fraction_and_whitespace() {
    match parse("  12.5 + 0.25 @ a/b = some value  ") {
        Some(CacheMsg::TellTS { key, val, time, ttl, .. }) => {
            assert_eq!(key, "a/b");
            assert_eq!(val, "some value");
            assert_eq!(time, 12_500_000);
            assert_eq!(ttl, 250_000);
        }
        other => panic!("unexpected {:?}", other),
    }
}

#[test]
fn parse_trims_unicode_spaces() {
    match parse("\u{3000}k\u{a0}=\u{2002}v\u{3000}") {
        Some(CacheMsg::Tell { key, val, .. }) => {
            assert_eq!(key, "k");
            assert_eq!(val, "v");
        }
        other => panic!("unexpected {:?}", other),
    }
}

#[test]
fn parse_ttl_with_exponent() {
    let ttl_of = |line: &str| match parse(line) {
        Some(CacheMsg::TellTS { ttl, .. }) => Some(ttl),
        Some(other) => panic!("unexpected {:?}", other),
        None => None,
    };
    assert_eq!(ttl_of("100+1.5e3@x=1"), Some(1_500_000_000));
    assert_eq!(ttl_of("100+2E+2@x=1"), Some(200_000_000));
    assert_eq!(ttl_of("100+25e-1@x=1"), Some(2_500_000));
    assert_eq!(ttl_of("100+1e-7@x=1"), Some(0));
    assert_eq!(ttl_of("100+0e999@x=1"), Some(0));
    assert_eq!(ttl_of("100+1e999@x=1"), None);
    assert_eq!(ttl_of("1-2e1@x=1"), Some(19_000_000));
    match parse("5+2e2@x?") {
        Some(CacheMsg::AskHist { from, delta, .. }) => {
            assert_eq!(from, 5_000_000);
            assert_eq!(delta, 200_000_000);
        }
        other => panic!("unexpected {:?}", other),
    }
}

#[test]
fn parse_no_store_flag() {
    match parse("k#=v") {
        Some(CacheMsg::Tell { key, no_store, .. }) => {
            assert_eq!(key, "k");
            assert!(no_store);
        }
        other => panic!("unexpected {:?}", other),
    }
}

#[test]
fn parse_stamp_without_time_uses_now() {
    match parse("@x=1") {
        Some(CacheMsg::TellTS { time, ttl, .. }) => {
            assert_eq!(time, NOW);
            assert_eq!(ttl, 0);
        }
        other => panic!("unexpected {:?}", other),
    }
}

#[test]
fn parse_queries() {
    assert!(matches!(parse("x?"), Some(CacheMsg::Ask { with_ts: false, .. })));
    assert!(matches!(parse("@x?"), Some(CacheMsg::Ask { with_ts: true, .. })));
    match parse("100+50@x?") {
        Some(CacheMsg::AskHist { key, from, delta }) => {
            assert_eq!(key, "x");
            assert_eq!(from, 100_000_000);
            assert_eq!(delta, 50_000_000);
        }
        other => panic!("unexpected {:?}", other),
    }
    assert!(matches!(parse("a/*"), Some(CacheMsg::AskWild { with_ts: false, .. })));
    assert!(matches!(parse("foo:"), Some(CacheMsg::Subscribe { with_ts: false, .. })));
    assert!(matches!(parse("@foo|"), Some(CacheMsg::Unsub { with_ts: true, .. })));
}

#[test]
fn parse_locks_and_rewrites() {
    match parse("0+0@k$+c1") {
        Some(CacheMsg::Lock { key, client, time, ttl }) => {
            assert_eq!(key, "k");
            assert_eq!(client, "c1");
            assert_eq!(time, 0);
            assert_eq!(ttl, 0);
        }
        other => panic!("unexpected {:?}", other),
    }
    assert!(matches!(parse("k$-c1"), Some(CacheMsg::Unlock { .. })));
    match parse("k$") {
        Some(CacheMsg::LockRes { key, client }) => {
            assert_eq!(key, "k");
            assert_eq!(client, "");
        }
        other => panic!("unexpected {:?}", other),
    }
    match parse("new~Old") {
        Some(CacheMsg::Rewrite { new_prefix, old_prefix }) => {
            assert_eq!(new_prefix, "new");
            assert_eq!(old_prefix, "Old");
        }
        other => panic!("unexpected {:?}", other),
    }
}

#[test]
fn parse_quit_and_garbage() {
    assert!(matches!(parse(""), Some(CacheMsg::Quit)));
    assert!(matches!(parse("   \r"), Some(CacheMsg::Quit)));
    assert!(matches!(parse("\u{3000}"), Some(CacheMsg::Quit)));
    assert!(matches!(parse("\u{a0}\t\u{2003}"), Some(CacheMsg::Quit)));
    assert!(parse("no operator here").is_none());
    assert!(parse("99999999999999@x=1").is_none());
}

#[test]
fn serialize_messages() {
    let m = CacheMsg::TellTS { key: "y".to_string(), val: "42".to_string(), time: 1_700_000_000_000_000, ttl: 60_000_000, no_store: false };
    assert_eq!(m.to_string(), "1700000000+60@y=42\n");
    let m = CacheMsg::TellTS { key: "y".to_string(), val: "42".to_string(), time: 1_500_000, ttl: 0, no_store: true };
    assert_eq!(m.to_string(), "1.5@y#=42\n");
    let m = CacheMsg::TellOldTS { key: "z".to_string(), val: String::new(), time: 0, ttl: 0 };
    assert_eq!(m.to_string(), "0+0@z!\n");
    let m = CacheMsg::LockRes { key: "k".to_string(), client: "c1".to_string() };
    assert_eq!(m.to_string(), "k$c1\n");
    let m = CacheMsg::Ask { key: "x".to_string(), with_ts: true };
    assert_eq!(m.to_string(), "@x?\n");
    let m = CacheMsg::AskHist { key: "x".to_string(), from: 10_000_000, delta: 250_000 };
    assert_eq!(m.to_string(), "10+0.25@x?\n");
    let m = CacheMsg::Rewrite { new_prefix: "a".to_string(), old_prefix: "b".to_string() };
    assert_eq!(m.to_string(), "a~b\n");
    assert_eq!(CacheMsg::Quit.to_string(), "\n");
}

#[test]
fn round_trip_of_server_messages() {
    let msgs = vec![
        CacheMsg::Tell { key: "a/b".to_string(), val: "x@y=z".to_string(), no_store: false },
        CacheMsg::TellTS { key: "a".to_string(), val: "1".to_string(), time: 1_234_567, ttl: 10, no_store: true },
        CacheMsg::TellOld { key: "q".to_string(), val: "".to_string() },
        CacheMsg::TellOldTS { key: "q".to_string(), val: "v".to_string(), time: 5_000_001, ttl: 0 },
        CacheMsg::LockRes { key: "k".to_string(), client: "holder".to_string() },
    ];
    for m in msgs {
        let text = m.to_string();
        let back = CacheMsg::parse(text.trim_end_matches('\n'), NOW).expect("parses");
        assert_eq!(back.to_string(), text);
    }
}

#[test]
fn split_and_construct_keys() {
    assert_eq!(split_key("a/b/c"), ("a/b".to_string(), "c".to_string()));
    assert_eq!(split_key("foo"), ("nocat".to_string(), "foo".to_string()));
    assert_eq!(split_key("/x"), ("".to_string(), "x".to_string()));
    assert_eq!(construct_key("a/b", "c"), "a/b/c");
    assert_eq!(construct_key("nocat", "foo"), "foo");
    for k in ["a/b/c", "foo", "x/", "/y"] {
        let (c, s) = split_key(k);
        assert_eq!(construct_key(&c, &s), k);
    }
    let (c, s) = split_key("nocat/x");
    assert_eq!(construct_key(&c, &s), "x");
}

#[test]
fn entry_messages() {
    let e = Entry::new(2_000_000, 0, "v");
    assert!(!e.expired);
    assert_eq!(e.to_msg("k", false).to_string(), "k=v\n");
    assert_eq!(e.to_msg("k", true).to_string(), "2@k=v\n");
    let d = Entry::new(3_000_000, 0, "");
    assert!(d.expired);
    assert_eq!(d.to_msg("k", false).to_string(), "k!\n");
    let x = Entry::new(1_000_000, 5_000_000, "w").expired();
    assert_eq!(x.to_msg("k", true).to_string(), "1+5@k!w\n");
    assert_eq!(Entry::no_msg("k", true).to_string(), "0+0@k!\n");
    assert_eq!(Entry::no_msg("k", false).to_string(), "k!\n");
}
