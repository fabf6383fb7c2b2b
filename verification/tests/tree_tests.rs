use fs_tree::FileSystemItem;
use fs_tree::TreeError;

fn file(path: &str) -> FileSystemItem {
    FileSystemItem::new_file(path.to_string()).unwrap()
}

fn folder(path: &str) -> FileSystemItem {
    FileSystemItem::new_folder(path.to_string()).unwrap()
}

#[test]
fn extension_extraction() {
    let f = file("a/b/report.final.csv");
    assert_eq!(f.name().unwrap().as_str(), "report.final.csv");
    assert_eq!(f.extension().unwrap().as_str(), "csv");
    assert_eq!(f.path().unwrap().as_str(), "a/b/report.final.csv");
}

#[test]
fn extension_of_dotted_name_is_suffix_after_last_dot() {
    let f = file(".gitignore");
    assert_eq!(f.name().unwrap().as_str(), ".gitignore");
    assert_eq!(f.extension().unwrap().as_str(), "gitignore");
}

#[test]
fn file_without_extension_is_malformed() {
    assert_eq!(
        FileSystemItem::new_file("a/b/readme".to_string()).unwrap_err(),
        TreeError::MalformedPath
    );
}

#[test]
fn empty_final_segment_is_malformed() {
    assert_eq!(
        FileSystemItem::new_file("a/b/".to_string()).unwrap_err(),
        TreeError::MalformedPath
    );
    assert_eq!(
        FileSystemItem::new_folder("".to_string()).unwrap_err(),
        TreeError::MalformedPath
    );
    assert_eq!(
        FileSystemItem::new_folder("a/".to_string()).unwrap_err(),
        TreeError::MalformedPath
    );
}

#[test]
fn folder_keeps_given_path_and_starts_open() {
    let d = folder("root/docs");
    assert_eq!(d.name().unwrap().as_str(), "docs");
    assert_eq!(d.path().unwrap().as_str(), "root/docs");
    assert_eq!(d.is_open().unwrap(), true);
}

#[test]
fn describe_round_trip_for_file() {
    let mut p = folder("p");
    p.add_item(file("p/x.txt")).unwrap();
    let d = p.get_data("p/x.txt");
    assert_eq!(
        d,
        vec![
            "file".to_string(),
            "x.txt".to_string(),
            "p/x.txt".to_string(),
            "txt".to_string(),
        ]
    );
}

#[test]
fn describe_round_trip_for_folder() {
    let mut p = folder("p");
    let mut d = folder("p/d");
    d.add_item(file("p/d/a.rs")).unwrap();
    d.add_item(file("p/d/b.rs")).unwrap();
    p.add_item(d).unwrap();
    let got = p.get_data("p/d");
    assert_eq!(
        got,
        vec![
            "folder".to_string(),
            "d".to_string(),
            "p/d".to_string(),
            "true".to_string(),
            "a.rs, b.rs".to_string(),
        ]
    );
}

#[test]
fn describe_miss_is_empty_not_error() {
    let p = folder("p");
    assert_eq!(p.get_data("p/nothing"), Vec::<String>::new());
}

#[test]
fn last_write_wins_on_name_collision() {
    let mut g = folder("g");
    let mut p = folder("g/p");
    p.add_item(file("g/p/x.txt")).unwrap();
    p.add_item(file("g/p/x.txt")).unwrap();
    g.add_item(p).unwrap();
    let d = g.get_data("g/p");
    // the joined child list holds the colliding key exactly once
    assert_eq!(d[4], "x.txt".to_string());
    let p_ref = g.child_named("p").unwrap();
    assert!(p_ref.child_named("x.txt").is_some());
}

#[test]
fn toggle_idempotence() {
    let mut tree = FileSystemItem::new("root".to_string());
    tree.add_item(folder("root/docs")).unwrap();
    tree.set_open_state("root/docs", true);
    tree.set_open_state("root/docs", true);
    let docs = tree
        .child_named("root")
        .unwrap()
        .child_named("docs")
        .unwrap();
    assert_eq!(docs.is_open().unwrap(), true);
}

#[test]
fn toggle_alternating_restores() {
    let mut tree = FileSystemItem::new("root".to_string());
    tree.add_item(folder("root/docs")).unwrap();
    // freshly created folders are open
    tree.set_open_state("root/docs", false);
    let docs = tree
        .child_named("root")
        .unwrap()
        .child_named("docs")
        .unwrap();
    assert_eq!(docs.is_open().unwrap(), false);
    tree.set_open_state("root/docs", true);
    let docs = tree
        .child_named("root")
        .unwrap()
        .child_named("docs")
        .unwrap();
    assert_eq!(docs.is_open().unwrap(), true);
}

#[test]
fn toggle_miss_is_silent() {
    let mut tree = FileSystemItem::new("root".to_string());
    tree.add_item(folder("root/docs")).unwrap();
    tree.set_open_state("root/elsewhere", false);
    let docs = tree
        .child_named("root")
        .unwrap()
        .child_named("docs")
        .unwrap();
    assert_eq!(docs.is_open().unwrap(), true);
}

#[test]
fn removal_shrinks_exactly_one_branch() {
    let mut p = folder("p");
    p.add_item(folder("p/d")).unwrap();
    p.add_item(file("p/f.txt")).unwrap();
    p.remove_item("p/d");
    assert!(p.child_named("d").is_none());
    assert_eq!(p.get_data("p/d"), Vec::<String>::new());
    // the file child is untouched
    assert!(p.child_named("f.txt").is_some());
}

#[test]
fn removal_matches_folders_only() {
    let mut p = folder("p");
    p.add_item(file("p/f.txt")).unwrap();
    p.remove_item("p/f.txt");
    // files are never removed by path
    assert!(p.child_named("f.txt").is_some());
}

#[test]
fn insert_into_file_is_invalid() {
    let mut f = file("a/b.txt");
    assert_eq!(
        f.add_item(file("a/c.txt")).unwrap_err(),
        TreeError::InvalidInsertTarget
    );
}

#[test]
fn insert_root_as_item_is_invalid() {
    let mut p = folder("p");
    let other = FileSystemItem::new("root".to_string());
    assert_eq!(p.add_item(other).unwrap_err(), TreeError::InvalidInsertTarget);
}

#[test]
fn missing_bootstrap_folder() {
    let mut tree = FileSystemItem::new("root".to_string());
    // the bootstrap folder's path is its name
    tree.remove_item("root");
    assert_eq!(
        tree.add_item(folder("root/docs")).unwrap_err(),
        TreeError::MissingBootstrapFolder
    );
}

#[test]
fn scenario_seed_insert_describe_toggle() {
    let mut tree = FileSystemItem::new("root".to_string());
    let mut docs = folder("root/docs");
    docs.add_item(file("root/docs/readme.md")).unwrap();
    assert_eq!(
        docs.get_data("root/docs/readme.md"),
        vec![
            "file".to_string(),
            "readme.md".to_string(),
            "root/docs/readme.md".to_string(),
            "md".to_string(),
        ]
    );
    tree.add_item(docs).unwrap();
    tree.set_open_state("root/docs", false);
    let boot = tree.child_named("root").unwrap();
    assert_eq!(
        boot.get_data("root/docs"),
        vec![
            "folder".to_string(),
            "docs".to_string(),
            "root/docs".to_string(),
            "false".to_string(),
            "readme.md".to_string(),
        ]
    );
}
