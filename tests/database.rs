use cache_rs::database::{DB, batch_lines, hist_range, ask_hist};
use cache_rs::entry::Entry;
use cache_rs::handler::{process, Action};

const NOW: i64 = 1_650_000_000_000_000;

fn reply(a: Action) -> Vec<String> {
    match a {
        Action::Reply(v) => v,
        _ => panic!("expected a reply"),
    }
}

#[test]
fn set_and_ask() {
    let mut db = DB::new();
    assert!(matches!(process(&mut db, "x=1", 1, NOW), Action::Changes(_)));
    let r = reply(process(&mut db, "x?", 1, NOW));
    assert_eq!(r, vec!["x=1\n".to_string()]);
}

#[test]
fn timestamped_set_and_ask() {
    let mut db = DB::new();
    process(&mut db, "1700000000+60@y=42", 1, NOW);
    let r = reply(process(&mut db, "@y?", 1, NOW));
    assert_eq!(r, vec!["1700000000+60@y=42\n".to_string()]);
}

#[test]
fn ask_missing_key() {
    let db = DB::new();
    assert_eq!(db.ask("nope", true), "0+0@nope!\n");
    assert_eq!(db.ask("nope", false), "nope!\n");
}

#[test]
fn wildcard_query() {
    let mut db = DB::new();
    process(&mut db, "a/1=1", 1, NOW);
    process(&mut db, "a/2=2", 1, NOW);
    process(&mut db, "b/1=3", 1, NOW);
    let r = reply(process(&mut db, "a/*", 1, NOW));
    assert_eq!(r.len(), 1);
    assert!(r[0].contains("a/1=1\n"));
    assert!(r[0].contains("a/2=2\n"));
    assert!(!r[0].contains("b/1=3"));
}

#[test]
fn tell_changes_and_same_value() {
    let mut db = DB::new();
    let c = db.tell("cat/k", "v", 10, 0, false, 7);
    assert_eq!(c.len(), 1);
    assert!(c[0].save && c[0].notify);
    assert_eq!(c[0].cat, "cat");
    assert_eq!(c[0].sub, "k");
    assert_eq!(c[0].source, Some(7));
    let c = db.tell("cat/k", "v", 20, 5, false, 7);
    assert!(!c[0].save && !c[0].notify);
    assert_eq!(db.ask("cat/k", true), "0.00002+0.000005@cat/k=v\n");
    let c = db.tell("cat/k", "v", 30, 0, true, 7);
    assert!(!c[0].save && c[0].notify);
}

#[test]
fn deleting_an_expired_key() {
    let mut db = DB::new();
    db.tell("k", "", 10, 0, false, 1);
    let c = db.tell("k", "", 20, 0, false, 1);
    assert!(!c[0].save);
    assert!(!c[0].notify);
    let c = db.tell("k", "", 30, 0, true, 1);
    assert!(!c[0].save);
    assert!(c[0].notify);
}

#[test]
fn clean_expires_entries() {
    let mut db = DB::new();
    db.tell("a/x", "1", 1_000_000, 2_000_000, false, 1);
    db.tell("a/y", "2", 1_000_000, 0, false, 1);
    let c = db.clean(2_500_000);
    assert!(c.is_empty());
    let c = db.clean(3_500_000);
    assert_eq!(c.len(), 1);
    assert_eq!(c[0].sub, "x");
    assert!(c[0].entry.expired && c[0].save && c[0].notify);
    assert_eq!(c[0].source, None);
    assert_eq!(db.ask("a/x", false), "a/x!1\n");
    assert!(db.clean(10_000_000).is_empty());
}

#[test]
fn lock_contention() {
    let mut db = DB::new();
    assert_eq!(reply(process(&mut db, "0+0@k$+c1", 1, NOW)), vec!["k$\n".to_string()]);
    assert_eq!(reply(process(&mut db, "0+0@k$+c2", 2, NOW)), vec!["k$c1\n".to_string()]);
    assert_eq!(reply(process(&mut db, "k$-c2", 2, NOW)), vec!["k$c1\n".to_string()]);
    assert_eq!(reply(process(&mut db, "k$-c1", 1, NOW)), vec!["k$\n".to_string()]);
    assert_eq!(reply(process(&mut db, "0+0@k$+c2", 2, NOW)), vec!["k$\n".to_string()]);
    assert_eq!(reply(process(&mut db, "k$-nobody", 3, NOW)), vec!["k$c2\n".to_string()]);
    assert_eq!(reply(process(&mut db, "free$-c9", 3, NOW)), vec!["free$\n".to_string()]);
}

#[test]
fn lock_expiry_and_relock() {
    let mut db = DB::new();
    assert_eq!(db.lock(true, "k", "c1", 100, 10, 100), "k$\n");
    assert_eq!(db.lock(true, "k", "c2", 105, 10, 105), "k$c1\n");
    assert_eq!(db.lock(true, "k", "c2", 111, 10, 111), "k$\n");
    assert_eq!(db.lock(true, "k", "c2", 112, 0, 112), "k$\n");
}

#[test]
fn rewrite_mirrors_writes() {
    let mut db = DB::new();
    process(&mut db, "new~OLD", 1, NOW);
    let c = db.tell("old/x", "v", 10, 0, false, 1);
    assert_eq!(c.len(), 2);
    assert_eq!(c[1].cat, "new");
    assert!(c[1].notify);
    assert_eq!(db.ask("new/x", false), "new/x=v\n");
    db.rewrite("new", "");
    let c = db.tell("old/x", "w", 20, 0, false, 1);
    assert_eq!(c.len(), 1);
    assert_eq!(db.ask("new/x", false), "new/x=v\n");
}

#[test]
fn self_mirror_broadcasts_once() {
    let mut db = DB::new();
    db.rewrite("c", "c");
    let ch = db.tell("c/x", "v", 10, 0, true, 1);
    assert_eq!(ch.len(), 1);
    assert!(ch[0].notify && !ch[0].save);
}

#[test]
fn batches_of_one_hundred() {
    let lines: Vec<String> = (0..250).map(|i| format!("k{}=v\n", i)).collect();
    let b = batch_lines(&lines);
    assert_eq!(b.len(), 3);
    assert_eq!(b[0], lines[..100].concat());
    assert_eq!(b[2], lines[200..].concat());
    let exact: Vec<String> = (0..100).map(|i| format!("k{}=v\n", i)).collect();
    let b = batch_lines(&exact);
    assert_eq!(b.len(), 2);
    assert_eq!(b[1], "");
    assert_eq!(batch_lines(&Vec::new()), vec![String::new()]);
}

#[test]
fn history_replies() {
    assert_eq!(hist_range(10, -1), None);
    assert_eq!(hist_range(10, 5), Some((10, 15)));
    let r = ask_hist("a/x", &vec![(1_000_000, "1".to_string()), (2_000_000, "".to_string())]);
    assert_eq!(r, vec!["1@a/x=1\n2@a/x=\n".to_string()]);
    let r = ask_hist("k", &vec![(3_000_000, "c".to_string()), (1_000_000, "a".to_string()), (3_000_000, "d".to_string()), (2_000_000, "b".to_string())]);
    assert_eq!(r, vec!["1@k=a\n2@k=b\n3@k=c\n3@k=d\n".to_string()]);
    assert!(matches!(process(&mut DB::new(), "10-5@x?", 1, NOW), Action::Nothing));
    match process(&mut DB::new(), "10+5@x?", 1, NOW) {
        Action::History { key, from, to } => {
            assert_eq!(key, "x");
            assert_eq!(from, 10_000_000);
            assert_eq!(to, 15_000_000);
        }
        _ => panic!("expected a history query"),
    }
}

#[test]
fn put_and_entries_in() {
    let mut db = DB::new();
    db.put("c", "a", Entry::new(5, 0, "1"));
    db.put("c", "b", Entry::new(6, 0, "2").expired());
    db.put("d", "a", Entry::new(7, 0, "3"));
    let e = db.entries_in("c");
    assert_eq!(e.len(), 2);
    assert_eq!(e[0].0, "a");
    assert!(e[1].1.expired);
}

#[test]
fn quit_and_strange_lines() {
    let mut db = DB::new();
    assert!(matches!(process(&mut db, "", 1, NOW), Action::Quit));
    assert!(matches!(process(&mut db, "garbage", 1, NOW), Action::Nothing));
}
