use ocean_drive::daemon::{
    folder_step, next_step, on_reauthorized, on_walk_end, select_root, Config, CycleAction,
    CycleEnd, DriveConfig, FolderStep, LoopStep, RemoteDaemon, RootError, WalkOutcome,
    SYNC_INTERVAL_SECS,
};
use ocean_drive::reconcile::{
    contains_separator, join_path, path_is_within, plan_listing, FsOp, RemoteObject,
};
use ocean_drive::versions::{Version, VersionMap};

fn remote(id: &str, name: &str, is_folder: bool, version: &str, hash: Option<&str>, trashed: bool) -> RemoteObject {
    RemoteObject {
        id: id.to_string(),
        name: name.to_string(),
        is_folder,
        version: version.to_string(),
        content_hash: hash.map(|h| h.to_string()),
        trashed,
    }
}

fn record(path: &str, version: &str, hash: Option<&str>, parent: &str, is_folder: bool) -> Version {
    Version {
        path: path.to_string(),
        version: version.to_string(),
        content_hash: hash.map(|h| h.to_string()),
        parent_id: parent.to_string(),
        is_folder,
    }
}

fn s(x: &str) -> String {
    x.to_string()
}

#[test]
fn trashed_file_is_removed_with_its_record() {
    let mut m = VersionMap::new();
    m.insert(s("X"), record("/root/P", "1", Some("h"), "root", false));
    let children = vec![remote("X", "P", false, "2", Some("h"), true)];
    let r = plan_listing(&s("root"), &s("/root"), &children, &mut m);
    assert!(!r.stopped);
    assert_eq!(r.ops.len(), 1);
    assert!(matches!(&r.ops[0], FsOp::Remove { path, is_folder: false } if path == "/root/P"));
    assert!(m.get(&s("X")).is_none());
}

#[test]
fn unchanged_stamp_leaves_moved_folder_alone() {
    let mut m = VersionMap::new();
    m.insert(s("F"), record("/root/old", "5", None, "root", true));
    let children = vec![remote("F", "new", true, "5", None, false)];
    let r = plan_listing(&s("root"), &s("/root"), &children, &mut m);
    assert!(r.ops.is_empty());
    assert_eq!(m.get(&s("F")).unwrap().path, "/root/old");
}

#[test]
fn changed_folder_is_renamed_not_recreated() {
    let mut m = VersionMap::new();
    m.insert(s("F"), record("/root/old", "5", None, "root", true));
    let children = vec![remote("F", "new", true, "6", None, false)];
    let r = plan_listing(&s("root"), &s("/root"), &children, &mut m);
    assert_eq!(r.ops.len(), 3);
    assert!(matches!(&r.ops[0], FsOp::Rename { from, to } if from == "/root/old" && to == "/root/new"));
    assert!(matches!(&r.ops[1], FsOp::EnsureDir { path } if path == "/root/new"));
    assert!(matches!(&r.ops[2], FsOp::Descend { id, path } if id == "F" && path == "/root/new"));
    assert!(!r.ops.iter().any(|o| matches!(o, FsOp::Remove { .. })));
    let v = m.get(&s("F")).unwrap();
    assert_eq!(v.path, "/root/new");
    assert_eq!(v.version, "6");
}

#[test]
fn malformed_name_stops_the_walk_of_its_folder() {
    let mut m = VersionMap::new();
    let children = vec![
        remote("a", "one", false, "1", Some("h1"), false),
        remote("b", "a/b", false, "1", Some("h2"), false),
        remote("c", "three", false, "1", Some("h3"), false),
    ];
    let r = plan_listing(&s("root"), &s("/root"), &children, &mut m);
    assert!(r.stopped);
    assert_eq!(r.ops.len(), 1);
    assert!(matches!(&r.ops[0], FsOp::Download { id, dest } if id == "a" && dest == "/root/one"));
    assert!(m.get(&s("b")).is_none());
    assert!(m.get(&s("c")).is_none());
}

#[test]
fn new_file_is_downloaded_and_recorded() {
    let mut m = VersionMap::new();
    let children = vec![remote("n", "doc.txt", false, "3", Some("abc"), false)];
    let r = plan_listing(&s("root"), &s("/home/u/ocean/"), &children, &mut m);
    assert_eq!(r.ops.len(), 1);
    assert!(matches!(&r.ops[0], FsOp::Download { id, dest } if id == "n" && dest == "/home/u/ocean/doc.txt"));
    let v = m.get(&s("n")).unwrap();
    assert_eq!(v.path, "/home/u/ocean/doc.txt");
    assert_eq!(v.version, "3");
    assert_eq!(v.content_hash.as_deref(), Some("abc"));
    assert_eq!(v.parent_id, "root");
    assert!(!v.is_folder);
}

#[test]
fn same_hash_new_stamp_renames_without_download() {
    let mut m = VersionMap::new();
    m.insert(s("f"), record("/root/a.txt", "1", Some("h"), "root", false));
    let children = vec![remote("f", "b.txt", false, "2", Some("h"), false)];
    let r = plan_listing(&s("root"), &s("/root"), &children, &mut m);
    assert_eq!(r.ops.len(), 1);
    assert!(matches!(&r.ops[0], FsOp::Rename { from, to } if from == "/root/a.txt" && to == "/root/b.txt"));
}

#[test]
fn second_pass_changes_nothing() {
    let mut m = VersionMap::new();
    m.insert(s("t"), record("/root/t", "1", None, "root", false));
    m.insert(s("moved"), record("/elsewhere/m", "4", None, "x", false));
    let children = vec![
        remote("n", "new.txt", false, "1", Some("h"), false),
        remote("t", "t", false, "2", None, true),
        remote("moved", "m", false, "4", None, false),
        remote("d", "dir", true, "9", None, false),
    ];
    let first = plan_listing(&s("root"), &s("/root"), &children, &mut m);
    assert!(!first.ops.is_empty());
    let before = m.encode();
    let second = plan_listing(&s("root"), &s("/root"), &children, &mut m);
    assert!(second.ops.is_empty());
    assert!(!second.stopped);
    assert_eq!(m.encode(), before);
}

#[test]
fn folder_with_recorded_stamp_is_not_listed() {
    let mut m = VersionMap::new();
    m.insert(s("F"), record("/root/F", "5", None, "root", true));
    let same = Some(remote("F", "F", true, "5", None, false));
    let changed = Some(remote("F", "F", true, "6", None, false));
    assert_eq!(folder_step(&s("F"), &same, &m), FolderStep::Unchanged);
    assert_eq!(folder_step(&s("F"), &changed, &m), FolderStep::List);
    assert_eq!(folder_step(&s("G"), &same, &m), FolderStep::List);
    assert_eq!(folder_step(&s("F"), &None, &m), FolderStep::Vanished);
}

#[test]
fn authorization_failure_retries_without_sleep() {
    assert_eq!(on_walk_end(WalkOutcome::AuthorizationFailure), CycleAction::Reauthorize);
    assert_eq!(on_walk_end(WalkOutcome::Completed), CycleAction::Persist);
    assert_eq!(on_walk_end(WalkOutcome::OtherFailure), CycleAction::Fatal);
    assert_eq!(next_step(on_reauthorized(true)), LoopStep::RetryNow);
    assert_eq!(next_step(on_reauthorized(false)), LoopStep::Exit);
    assert_eq!(next_step(CycleEnd::Completed), LoopStep::Sleep(SYNC_INTERVAL_SECS));
    assert_eq!(SYNC_INTERVAL_SECS, 10);
}

#[test]
fn root_selection() {
    assert_eq!(select_root(&vec![]), Err(RootError::NotFound));
    let file = remote("1", "ocean", false, "1", None, false);
    let dir = remote("2", "ocean", true, "1", None, false);
    assert_eq!(select_root(&vec![file]), Err(RootError::NotAFolder));
    assert_eq!(select_root(&vec![dir]), Ok(s("2")));
}

#[test]
fn daemon_keeps_its_configuration() {
    let c = Config { local_dir: s("/home/u/ocean"), drive: DriveConfig { dir: s("ocean") } };
    let d = RemoteDaemon::new(c, s("rid"));
    assert_eq!(d.root_id(), "rid");
    assert_eq!(d.root_path(), "/home/u/ocean");
    assert_eq!(d.config.drive.dir, "ocean");
}

#[test]
fn paths() {
    assert_eq!(join_path(&s("/a"), &s("b")), "/a/b");
    assert_eq!(join_path(&s("/a/"), &s("b")), "/a/b");
    assert!(path_is_within(&s("/a/b"), &s("/a")));
    assert!(path_is_within(&s("/a"), &s("/a")));
    assert!(!path_is_within(&s("/ab"), &s("/a")));
    assert!(!path_is_within(&s("/b/a"), &s("/a")));
    assert!(contains_separator(&s("a/b")));
    assert!(!contains_separator(&s("ab")));
}
