use nocap::{check_watch_root, PathStatus, WatchError, WatchSlot};

#[test]
fn watch_root_must_be_an_existing_directory() {
    assert_eq!(check_watch_root(PathStatus::Missing), Err(WatchError::NotFound));
    assert_eq!(check_watch_root(PathStatus::NotDirectory), Err(WatchError::InvalidArgument));
    assert_eq!(check_watch_root(PathStatus::Directory), Ok(()));
}

#[test]
fn first_watch_installs_into_empty_slot() {
    let mut slot: WatchSlot<&str> = WatchSlot::new();
    assert!(slot.watched_root().is_none());
    let id = slot.reserve().unwrap();
    assert_eq!(id, 1);
    assert_eq!(slot.install(id, "/a".to_string(), "handle-a"), None);
    assert_eq!(slot.watched_root().map(|s| s.as_str()), Some("/a"));
    assert!(slot.admits(id));
}

#[test]
fn replacing_a_watch_silences_the_old_one() {
    let mut slot: WatchSlot<&str> = WatchSlot::new();
    let old_id = slot.reserve().unwrap();
    slot.install(old_id, "/old".to_string(), "handle-old");
    let new_id = slot.reserve().unwrap();
    assert!(new_id > old_id);
    let released = slot.install(new_id, "/new".to_string(), "handle-new");
    assert_eq!(released, Some("handle-old"));
    assert_eq!(slot.watched_root().map(|s| s.as_str()), Some("/new"));
    assert!(!slot.admits(old_id));
    assert!(slot.admits(new_id));
    assert!(slot.route(old_id, vec!["/old/a.png".to_string()]).is_none());
    let ev = slot.route(new_id, vec!["/new/b.png".to_string()]).unwrap();
    assert_eq!(ev.paths, vec!["/new/b.png".to_string()]);
}

#[test]
fn event_keeps_every_path_in_order() {
    let mut slot: WatchSlot<u8> = WatchSlot::new();
    let id = slot.reserve().unwrap();
    slot.install(id, "/r".to_string(), 0);
    let paths = vec!["/r/from.png".to_string(), "/r/to.png".to_string()];
    let ev = slot.route(id, paths.clone()).unwrap();
    assert_eq!(ev.paths, paths);
}

#[test]
fn nothing_is_delivered_before_a_watch() {
    let slot: WatchSlot<u8> = WatchSlot::new();
    assert!(!slot.admits(0));
    assert!(slot.route(0, vec!["/x".to_string()]).is_none());
}

#[test]
fn ids_run_out_without_wrapping() {
    let mut slot: WatchSlot<u8> = WatchSlot { active: None, issued: u64::MAX };
    assert_eq!(slot.reserve(), Err(WatchError::IdsExhausted));
    assert_eq!(slot.issued, u64::MAX);
}
