use skie::events::{classify_batch, plan_dispatch, removes_sync_root, Dispatch, WatchError};
use skie::{OsEvent, OsEventKind, RawEvent, RawEventKind};
use skie::events::{build_events_iter, is_relevant, path_has_component};

fn raw(kind: RawEventKind, path: &str, time: u64) -> RawEvent {
    RawEvent {
        kind,
        paths: vec![path.to_string()],
        time,
    }
}

fn shape(events: &[OsEvent]) -> Vec<(OsEventKind, Vec<String>)> {
    events.iter().map(|e| (e.kind, e.paths.clone())).collect()
}

// An atomic save (remove then create of the same path) is one update.
#[test]
fn remove_then_create_is_one_update() {
    let out = build_events_iter(vec![
        raw(RawEventKind::Remove, "/s/f", 1),
        raw(RawEventKind::Create, "/s/f", 2),
    ]);
    assert_eq!(shape(&out), vec![(OsEventKind::Update, vec!["/s/f".to_string()])]);
    assert_eq!(out[0].time, 1);
}

// Only the immediately next event pairs with a remove.
#[test]
fn non_matching_neighbours_break_the_pair() {
    let out = build_events_iter(vec![
        raw(RawEventKind::Remove, "/s/f", 1),
        raw(RawEventKind::Modify, "/s/g", 2),
        raw(RawEventKind::Create, "/s/f", 3),
        raw(RawEventKind::Remove, "/s/h", 4),
        raw(RawEventKind::Create, "/s/i", 5),
        raw(RawEventKind::Remove, "/s/j", 6),
    ]);
    let kinds: Vec<OsEventKind> = out.iter().map(|e| e.kind).collect();
    assert_eq!(
        kinds,
        vec![
            OsEventKind::Remove,
            OsEventKind::Update,
            OsEventKind::Create,
            OsEventKind::Remove,
            OsEventKind::Create,
            OsEventKind::Remove
        ]
    );
}

#[test]
fn raw_kinds_map_to_logical_kinds() {
    assert_eq!(OsEventKind::from(RawEventKind::Create), OsEventKind::Create);
    assert_eq!(OsEventKind::from(RawEventKind::Modify), OsEventKind::Update);
    assert_eq!(OsEventKind::from(RawEventKind::Remove), OsEventKind::Remove);
    assert_eq!(OsEventKind::from(RawEventKind::Access), OsEventKind::Access);
    assert_eq!(OsEventKind::from(RawEventKind::Any), OsEventKind::Any);
    assert_eq!(OsEventKind::from(RawEventKind::Other), OsEventKind::Other);
}

#[test]
fn config_component_is_detected() {
    assert!(path_has_component("/s/.config/config.toml", ".config"));
    assert!(path_has_component(".config", ".config"));
    assert!(path_has_component("/s/.config", ".config"));
    assert!(!path_has_component("/s/.configs/x", ".config"));
    assert!(!path_has_component("/s/my.config", ".config"));
    assert!(!path_has_component("", ".config"));
}

#[test]
fn relevance_filter() {
    assert!(is_relevant(&raw(RawEventKind::Modify, "/s/a", 0)));
    assert!(!is_relevant(&raw(RawEventKind::Access, "/s/a", 0)));
    assert!(!is_relevant(&raw(RawEventKind::Other, "/s/a", 0)));
    assert!(!is_relevant(&raw(RawEventKind::Create, "/s/.config/config.toml", 0)));
}

// Irrelevant events are dropped before atomic saves are paired.
#[test]
fn batch_classification() {
    let out = classify_batch(vec![
        raw(RawEventKind::Access, "/s/a", 1),
        raw(RawEventKind::Remove, "/s/f", 2),
        raw(RawEventKind::Create, "/s/f", 3),
        raw(RawEventKind::Modify, "/s/.config/config.toml", 4),
        raw(RawEventKind::Modify, "/s/b", 5),
    ]);
    assert_eq!(
        shape(&out),
        vec![
            (OsEventKind::Update, vec!["/s/f".to_string()]),
            (OsEventKind::Update, vec!["/s/b".to_string()]),
        ]
    );
}

#[test]
fn sync_root_removal_stops_the_watcher() {
    let root = "/s".to_string();
    let batch = build_events_iter(vec![raw(RawEventKind::Remove, "/s", 1)]);
    assert!(removes_sync_root(&batch, &root));
    assert_eq!(plan_dispatch(batch, &root).unwrap_err(), WatchError::SyncRootRemoved);
    let other = build_events_iter(vec![raw(RawEventKind::Remove, "/s/x", 1)]);
    assert!(!removes_sync_root(&other, &root));
}

#[test]
fn dispatch_plan() {
    let root = "/s".to_string();
    let batch = build_events_iter(vec![
        raw(RawEventKind::Create, "/s/a", 1),
        raw(RawEventKind::Remove, "/s/b", 2),
        raw(RawEventKind::Modify, "/s/c", 3),
    ]);
    let plan = plan_dispatch(batch, &root).unwrap();
    let text: Vec<String> = plan
        .iter()
        .map(|d| match d {
            Dispatch::Index(p) => format!("index {}", p),
            Dispatch::Forget(p) => format!("forget {}", p),
        })
        .collect();
    assert_eq!(text, vec!["index /s/a", "forget /s/b", "index /s/c"]);
}
