use cache_rs::updater::{UpdaterSet, UpdaterMsg, Subscriptions};
use cache_rs::entry::{Entry, UpdaterEntry};
use cache_rs::handler::{process, Action, take_lines};
use cache_rs::database::DB;

const NOW: i64 = 1_650_000_000_000_000;

fn update(key: &str, val: &str, source: Option<u64>) -> UpdaterMsg {
    UpdaterMsg::Update(UpdaterEntry::new(key.to_string(), &Entry::new(7_000_000, 0, val)), source)
}

#[test]
fn subscribe_and_echo_suppression() {
    let mut set = UpdaterSet::new();
    set.handle(UpdaterMsg::NewUpdater(1));
    set.handle(UpdaterMsg::NewUpdater(2));
    let mut db = DB::new();
    match process(&mut db, "foo:", 1, NOW) {
        Action::Notify(m) => { set.handle(m); }
        _ => panic!("expected a subscription"),
    }
    match process(&mut db, "foo:", 2, NOW) {
        Action::Notify(m) => { set.handle(m); }
        _ => panic!("expected a subscription"),
    }
    let changes = match process(&mut db, "foobar=7", 2, NOW) {
        Action::Changes(c) => c,
        _ => panic!("expected changes"),
    };
    assert_eq!(changes.len(), 1);
    let out = set.handle(update("foobar", "7", changes[0].source));
    assert_eq!(out.len(), 2);
    assert_eq!(out[0], (1, Some("foobar=7\n".to_string())));
    assert_eq!(out[1], (2, None));
}

#[test]
fn timestamped_subscription_and_cancel() {
    let mut set = UpdaterSet::new();
    set.handle(UpdaterMsg::NewUpdater(5));
    set.handle(UpdaterMsg::Subscription(5, "bar".to_string(), true));
    let out = set.handle(update("x/bar", "1", None));
    assert_eq!(out, vec![(5, Some("7@x/bar=1\n".to_string()))]);
    let out = set.handle(update("x/baz", "1", None));
    assert_eq!(out, vec![(5, None)]);
    set.handle(UpdaterMsg::CancelSubscription(5, "bar".to_string(), true));
    let out = set.handle(update("x/bar", "1", None));
    assert_eq!(out, vec![(5, None)]);
    set.handle(UpdaterMsg::RemoveUpdater(5));
    assert!(set.handle(update("x/bar", "1", None)).is_empty());
}

#[test]
fn matcher_reports_the_right_list() {
    let mut s = Subscriptions::new();
    assert_eq!(s.delivery("anything"), None);
    s.add_subscription("abc".to_string(), false);
    s.add_subscription("xyz".to_string(), true);
    assert_eq!(s.delivery("--abc--"), Some(false));
    assert_eq!(s.delivery("--xyz--"), Some(true));
    assert_eq!(s.delivery("--ab--"), None);
    s.remove_subscription("abc".to_string(), false);
    assert_eq!(s.delivery("--abc--"), None);
}

#[test]
fn cached_update_text() {
    let mut e = UpdaterEntry::new("k".to_string(), &Entry::new(3_000_000, 1_000_000, "v"));
    assert_eq!(e.get_msg(true), "3+1@k=v\n");
    assert_eq!(e.get_msg(true), "3+1@k=v\n");
    assert_eq!(e.get_msg(false), "k=v\n");
    assert_eq!(e.key(), "k");
}

#[test]
fn lines_from_a_buffer() {
    let buf = b"x=1\ny?\npartial".to_vec();
    let (lines, used) = take_lines(&buf);
    assert_eq!(lines, vec![b"x=1".to_vec(), b"y?".to_vec()]);
    assert_eq!(used, 7);
    let (lines, used) = take_lines(&b"no newline".to_vec());
    assert!(lines.is_empty());
    assert_eq!(used, 0);
    let (lines, used) = take_lines(&b"\n\n".to_vec());
    assert_eq!(lines, vec![Vec::<u8>::new(), Vec::new()]);
    assert_eq!(used, 2);
}
