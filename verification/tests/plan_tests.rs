use std::collections::HashSet;

use ftp_mirror::plan::{
    upload_file_plan, upload_many_plan, upload_tree_plan, Action, BatchItem, DirTree, Entry,
};

fn sample_tree() -> DirTree {
    DirTree {
        path: "root".to_string(),
        files: vec!["a.txt".to_string()],
        subdirs: vec![DirTree {
            path: "root/sub".to_string(),
            files: vec!["b.txt".to_string()],
            subdirs: Vec::new(),
        }],
    }
}

#[test]
fn lazy_create_chain_for_single_file() {
    let p = upload_file_plan("newdir/sub/file.txt", "newdir/sub/file.txt", '/');
    assert_eq!(p.local, "newdir/sub/file.txt");
    assert_eq!(p.store, "newdir/sub/file.txt");
    assert_eq!(p.dirs, vec!["newdir".to_string(), "newdir/sub".to_string()]);
}

#[test]
fn upload_plan_translates_remote_path() {
    let p = upload_file_plan("d\\f.txt", "base\\d\\f.txt", '\\');
    assert_eq!(p.local, "d\\f.txt");
    assert_eq!(p.store, "base/d/f.txt");
    assert_eq!(p.dirs, vec!["base".to_string(), "base/d".to_string()]);
}

#[test]
fn end_to_end_tree_plan() {
    let plan = upload_tree_plan(&sample_tree(), "remote", '/');
    assert_eq!(plan.len(), 4);
    match &plan[0] {
        Action::MakeDir(d) => assert_eq!(d, "remote"),
        other => panic!("expected a directory creation, got {:?}", other),
    }
    match &plan[1] {
        Action::Upload(fp) => {
            assert_eq!(fp.local, "root/a.txt");
            assert_eq!(fp.store, "remote/a.txt");
            assert_eq!(fp.dirs, vec!["remote".to_string()]);
        },
        other => panic!("expected an upload, got {:?}", other),
    }
    match &plan[2] {
        Action::MakeDir(d) => assert_eq!(d, "remote/sub"),
        other => panic!("expected a directory creation, got {:?}", other),
    }
    match &plan[3] {
        Action::Upload(fp) => {
            assert_eq!(fp.local, "root/sub/b.txt");
            assert_eq!(fp.store, "remote/sub/b.txt");
            assert_eq!(fp.dirs, vec!["remote".to_string(), "remote/sub".to_string()]);
        },
        other => panic!("expected an upload, got {:?}", other),
    }
}

#[test]
fn depth_remapping_strips_root_segments() {
    let tree = DirTree {
        path: "/a/b/c".to_string(),
        files: Vec::new(),
        subdirs: vec![DirTree {
            path: "/a/b/c/d".to_string(),
            files: vec!["e.txt".to_string()],
            subdirs: Vec::new(),
        }],
    };
    let plan = upload_tree_plan(&tree, "r", '/');
    assert_eq!(plan.len(), 3);
    match &plan[0] {
        Action::MakeDir(d) => assert_eq!(d, "r"),
        other => panic!("expected a directory creation, got {:?}", other),
    }
    match &plan[1] {
        Action::MakeDir(d) => assert_eq!(d, "r/d"),
        other => panic!("expected a directory creation, got {:?}", other),
    }
    match &plan[2] {
        Action::Upload(fp) => {
            assert_eq!(fp.local, "/a/b/c/d/e.txt");
            assert_eq!(fp.store, "r/d/e.txt");
        },
        other => panic!("expected an upload, got {:?}", other),
    }
}

#[test]
fn batch_classification_in_input_order() {
    let tree = DirTree { path: "d".to_string(), files: Vec::new(), subdirs: Vec::new() };
    let items = vec![
        BatchItem { path: "f.txt".to_string(), entry: Entry::File },
        BatchItem { path: "d".to_string(), entry: Entry::Dir(tree) },
        BatchItem { path: "ghost".to_string(), entry: Entry::Missing },
    ];
    let plan = upload_many_plan(&items, "base", '/');
    assert_eq!(plan.len(), 3);
    match &plan[0] {
        Action::Upload(fp) => {
            assert_eq!(fp.local, "f.txt");
            assert_eq!(fp.store, "base/f.txt");
            assert_eq!(fp.dirs, vec!["base".to_string()]);
        },
        other => panic!("expected an upload, got {:?}", other),
    }
    match &plan[1] {
        Action::MakeDir(d) => assert_eq!(d, "base/d"),
        other => panic!("expected a directory creation, got {:?}", other),
    }
    match &plan[2] {
        Action::Unknown(p) => assert_eq!(p, "ghost"),
        other => panic!("expected an unknown-path report, got {:?}", other),
    }
}

#[test]
fn empty_remote_root_creates_no_directory() {
    let tree =
        DirTree { path: "x".to_string(), files: vec!["f.txt".to_string()], subdirs: Vec::new() };
    let plan = upload_tree_plan(&tree, "", '/');
    assert_eq!(plan.len(), 1);
    match &plan[0] {
        Action::Upload(fp) => {
            assert_eq!(fp.store, "f.txt");
            assert!(fp.dirs.is_empty());
        },
        other => panic!("expected an upload, got {:?}", other),
    }
}

#[test]
fn absolute_remote_root_is_kept_verbatim() {
    let plan = upload_tree_plan(&sample_tree(), "/r", '/');
    assert_eq!(plan.len(), 4);
    match &plan[0] {
        Action::MakeDir(d) => assert_eq!(d, "/r"),
        other => panic!("expected a directory creation, got {:?}", other),
    }
    match &plan[1] {
        Action::Upload(fp) => {
            assert_eq!(fp.local, "root/a.txt");
            assert_eq!(fp.store, "/r/a.txt");
            assert_eq!(fp.dirs, vec!["/".to_string(), "/r".to_string()]);
        },
        other => panic!("expected an upload, got {:?}", other),
    }
    match &plan[2] {
        Action::MakeDir(d) => assert_eq!(d, "/r/sub"),
        other => panic!("expected a directory creation, got {:?}", other),
    }
    match &plan[3] {
        Action::Upload(fp) => {
            assert_eq!(fp.store, "/r/sub/b.txt");
            assert_eq!(
                fp.dirs,
                vec!["/".to_string(), "/r".to_string(), "/r/sub".to_string()]
            );
        },
        other => panic!("expected an upload, got {:?}", other),
    }
}

#[test]
fn absolute_store_path_gets_rooted_recovery_chain() {
    let p = upload_file_plan("y.txt", "/x/y.txt", '/');
    assert_eq!(p.store, "/x/y.txt");
    assert_eq!(p.dirs, vec!["/".to_string(), "/x".to_string()]);
}

#[test]
fn remote_root_is_never_normalized() {
    let tree =
        DirTree { path: "root".to_string(), files: vec!["a.txt".to_string()], subdirs: Vec::new() };
    let plan = upload_tree_plan(&tree, "r//x", '/');
    assert_eq!(plan.len(), 2);
    match &plan[0] {
        Action::MakeDir(d) => assert_eq!(d, "r//x"),
        other => panic!("expected a directory creation, got {:?}", other),
    }
    match &plan[1] {
        Action::Upload(fp) => assert_eq!(fp.store, "r//x/a.txt"),
        other => panic!("expected an upload, got {:?}", other),
    }
}

#[test]
fn mirroring_twice_stores_the_same_files() {
    let plan = upload_tree_plan(&sample_tree(), "remote", '/');
    let mut once: HashSet<String> = HashSet::new();
    let mut uploads: usize = 0;
    for a in &plan {
        if let Action::Upload(fp) = a {
            once.insert(fp.store.clone());
            uploads += 1;
        }
    }
    assert_eq!(uploads, 2);
    assert_eq!(once.len(), 2);
    let mut twice = once.clone();
    for a in &plan {
        if let Action::Upload(fp) = a {
            twice.insert(fp.store.clone());
        }
    }
    assert_eq!(once, twice);
}
