use roflux::json::{parse_json, Json};
use roflux::sync::protocol::Inbound;
use roflux::sync::relay::{deliveries, item, tuple, values, Args, Batch, Relayed};
use roflux::sync::server::{connected_line, delivery, disconnected_line, respond, Level};
use roflux::sync::state::Backlog;
use roflux::sync::watch::{add_change, plan, relevant, Change};

fn texts(v: &[&str]) -> Vec<String> {
    v.iter().map(|s| s.to_string()).collect()
}

#[test]
fn a_reader_gets_what_was_pushed_since_its_cursor() {
    let mut backlog = Backlog::new(3);
    assert_eq!(backlog.cursor(), 0);
    backlog.push("a".into());
    let seen = backlog.cursor();
    backlog.push("b".into());
    assert_eq!(backlog.cursor(), 2);
    assert_eq!(backlog.since(seen), (2, texts(&["b"])));
    assert_eq!(backlog.since(2), (2, Vec::new()));
}

#[test]
fn the_backlog_keeps_the_newest() {
    let mut backlog = Backlog::new(2);
    for m in ["1", "2", "3", "4"] {
        backlog.push(m.into());
    }
    assert_eq!(backlog.cursor(), 4);
    assert_eq!(backlog.since(0), (4, texts(&["3", "4"])));
    assert_eq!(backlog.since(3), (4, texts(&["4"])));
    assert_eq!(backlog.since(10), (4, Vec::new()));
    let mut none = Backlog::new(0);
    none.push("x".into());
    assert_eq!(none.since(0), (1, Vec::new()));
}

#[test]
fn deliveries_are_json() {
    assert_eq!(delivery(5, &texts(&["{\"a\":1}", "{}"])), "{\"cursor\":5,\"messages\":[{\"a\":1},{}]}");
    assert_eq!(delivery(0, &Vec::new()), "{\"cursor\":0,\"messages\":[]}");
}

#[test]
fn plugin_messages() {
    let ready = respond(&Inbound::Ready { place: Some("Place1".into()) });
    assert_eq!(ready.report, Some((Level::Sync, "plugin ready in Place1".to_string())));
    let ready = respond(&Inbound::Ready { place: None });
    assert_eq!(ready.report, Some((Level::Sync, "plugin ready in studio".to_string())));
    let resync = respond(&Inbound::Resync);
    assert!(resync.resync && !resync.pong);
    let ping = respond(&Inbound::Ping);
    assert!(ping.pong && ping.report.is_none());
    let log = respond(&Inbound::Log { level: Some("error".into()), text: "boom".into() });
    assert_eq!(log.report, Some((Level::Fail, "studio: boom".to_string())));
    let log = respond(&Inbound::Log { level: Some("warn".into()), text: "hm".into() });
    assert_eq!(log.report, Some((Level::Warn, "studio: hm".to_string())));
    let log = respond(&Inbound::Log { level: None, text: "hi".into() });
    assert_eq!(log.report, Some((Level::Sync, "studio: hi".to_string())));
    assert_eq!(connected_line(2), "studio connected (2 total)");
    assert_eq!(disconnected_line(0), "studio disconnected (0 left)");
}

fn relayed(kind: &str, args: Option<Args>) -> Relayed {
    Relayed {
        kind: kind.into(),
        session: Some("s".into()),
        game_session: Some("g".into()),
        context: None,
        message: Some("m".into()),
        level: None,
        args,
    }
}

#[test]
fn relayed_events_become_hook_values() {
    let items = parse_json(r#"{"1":"x","2":5}"#).unwrap();
    let (event, vals) = values(&relayed("event", Some(Args { n: 3, items }))).unwrap();
    assert_eq!(event, "event");
    assert_eq!(vals.len(), 4);
    assert_eq!(vals[0].as_str().map(|s| s.as_str()), Some("s"));
    assert_eq!(vals[1].as_str().map(|s| s.as_str()), Some("x"));
    assert!(matches!(&vals[2], Json::Number(n) if n == "5"));
    assert!(vals[3].is_null());
    let (event, vals) = values(&relayed("log", None)).unwrap();
    assert_eq!(event, "log");
    assert_eq!(vals.len(), 5);
    assert!(vals[2].is_null());
    assert_eq!(vals[3].as_str().map(|s| s.as_str()), Some("m"));
    assert!(values(&relayed("other", None)).is_none());
    let (_, vals) = values(&relayed("gameStart", None)).unwrap();
    assert_eq!(vals.len(), 2);
}

#[test]
fn tuples_are_capped_and_read_arrays_from_one() {
    let list = parse_json("[10, 20]").unwrap();
    assert!(matches!(item(&list, 1), Json::Number(n) if n == "10"));
    assert!(item(&list, 3).is_null());
    let many = tuple(&Some(Args { n: 1000, items: Json::Null }));
    assert_eq!(many.len(), 256);
    assert!(tuple(&None).is_empty());
    let batch = Batch { events: vec![relayed("connect", None), relayed("nope", None)] };
    assert_eq!(deliveries(&batch).len(), 1);
}

#[test]
fn relevant_changes() {
    assert!(relevant("/p/src/Greeting.luau"));
    assert!(!relevant("/p/.hidden"));
    assert!(!relevant("/p/file.luau~"));
    assert!(relevant("/p/src/Shared/."));
    assert!(!relevant("/p/.git/."));
    assert!(!relevant("."));
    assert!(!relevant("/p/sourcemap.json"));
    assert!(!relevant("/p/target/debug/x"));
    assert!(!relevant("/p/node_modules/x.lua"));
    assert!(!relevant("/p/.git/HEAD"));
    assert!(!relevant("/"));
}

#[test]
fn a_batch_holds_each_change_once() {
    let mut batch = Vec::new();
    add_change(&mut batch, Change::Changed("/p/a".into()));
    add_change(&mut batch, Change::Changed("/p/a".into()));
    add_change(&mut batch, Change::Added("/p/a".into()));
    assert_eq!(batch.len(), 2);
    assert_eq!(batch[1].event(), "added");
    assert_eq!(batch[1].path(), "/p/a");
}

#[test]
fn a_batch_plans_reloads_and_notices() {
    let batch = vec![
        Change::Changed("/p/scripts/build.luau".into()),
        Change::Removed("/p/default.project.json".into()),
    ];
    let planned = plan(&batch, "default.project.json", "/p");
    assert!(planned.reload_hooks);
    assert!(planned.reload_config);
    assert_eq!(
        planned.notices,
        vec![
            ("changed".to_string(), "scripts/build.luau".to_string()),
            ("removed".to_string(), "default.project.json".to_string()),
        ]
    );
    let quiet = plan(&vec![Change::Added("/p/src/x.txt".into())], "default.project.json", "/p");
    assert!(!quiet.reload_hooks && !quiet.reload_config);
}

#[test]
fn pushes_reach_a_reader_in_order() {
    let mut backlog = Backlog::new(3);
    backlog.push("old".to_string());
    let start = backlog.cursor();
    for m in ["a", "b", "c"] {
        backlog.push(m.to_string());
    }
    assert_eq!(backlog.cursor(), start + 3);
    assert_eq!(backlog.since(start), (start + 3, vec!["a".to_string(), "b".to_string(), "c".to_string()]));
}
